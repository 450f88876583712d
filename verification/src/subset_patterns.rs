//! When naked and hidden subsets have something to say.

use crate::combos;
use crate::geometry;
use crate::grid;
use crate::grid::Grid;
use crate::mask;
use crate::seqs;
use crate::subset_laws;
use crate::subsets;
use crate::technique_laws;
use vstd::prelude::*;

verus! {

// ---- Naked subsets ----

/// One of the cells has the candidate `e`.
#[verifier::opaque]
pub open spec fn is_held(g: Grid, cs: Set<usize>, e: u8) -> bool {
    exists|i: usize| cs.contains(i) && #[trigger] g.cands[i as int].contains(e)
}

/// `size` cells of unit `u` have just the `size` candidates `ds` between them.
pub open spec fn is_closed(g: Grid, u: int, cs: Set<usize>, ds: Set<u8>, size: nat) -> bool {
    &&& 0 <= u < 27
    &&& cs.finite()
    &&& cs.len() == size
    &&& ds.finite()
    &&& ds.len() == size
    &&& forall|i: usize| #[trigger]
        cs.contains(i) ==> i < 81 && geometry::in_unit(u, i as int)
            && g.cands[i as int].subset_of(ds)
    &&& forall|e: u8| #[trigger] ds.contains(e) ==> is_held(g, cs, e)
}

/// And each of the cells has a choice of candidates.
pub open spec fn is_naked(g: Grid, u: int, cs: Set<usize>, ds: Set<u8>, size: nat) -> bool {
    &&& is_closed(g, u, cs, ds, size)
    &&& forall|i: usize| #[trigger]
        cs.contains(i) ==> g.cells[i as int] == 0 && g.cands[i as int].len() >= 2
}

/// A naked subset of `size` cells rules `e` out in cell `j`, elsewhere in the unit.
pub open spec fn naked_out(size: nat) -> spec_fn(Grid, int, u8) -> bool {
    |g: Grid, j: int, e: u8|
        exists|u: int, cs: Set<usize>, ds: Set<u8>|
            #[trigger] is_naked(g, u, cs, ds, size) && geometry::in_unit(u, j) && !cs.contains(
                j as usize,
            ) && ds.contains(e)
}

/// The same, where some of the cells may have lost their choice already.
pub open spec fn closed_out(size: nat) -> spec_fn(Grid, int, u8) -> bool {
    |g: Grid, j: int, e: u8|
        exists|u: int, cs: Set<usize>, ds: Set<u8>|
            #[trigger] is_closed(g, u, cs, ds, size) && geometry::in_unit(u, j) && !cs.contains(
                j as usize,
            ) && ds.contains(e)
}

proof fn lemma_union(g: Grid, c: Seq<usize>)
    requires
        grid::wf(g),
        forall|k: int| 0 <= k < c.len() ==> #[trigger] c[k] < 81,
    ensures
        subsets::union_of(g, c).finite(),
        forall|e: u8| #[trigger]
            subsets::union_of(g, c).contains(e) ==> is_held(g, c.to_set(), e),
        forall|i: usize| #[trigger]
            c.to_set().contains(i) ==> g.cands[i as int].subset_of(subsets::union_of(g, c)),
{
    let ds = subsets::union_of(g, c);
    assert forall|e: u8| #[trigger] ds.contains(e) implies is_held(g, c.to_set(), e) by {
        reveal(is_held);
        let k = choose|k: int| 0 <= k < c.len() && g.cands[#[trigger] c[k] as int].contains(e);
        assert(c.to_set().contains(c[k]));
    }
    assert forall|i: usize| #[trigger] c.to_set().contains(i) implies g.cands[i as int].subset_of(
        ds,
    ) by {
        let k = c.index_of(i);
        assert(c[k] == i);
    }
    grid::lemma_all_digits();
    assert(ds.subset_of(mask::all_digits())) by {
        assert forall|e: u8| #[trigger] ds.contains(e) implies mask::all_digits().contains(e) by {
            let k = choose|k: int| 0 <= k < c.len() && g.cands[#[trigger] c[k] as int].contains(e);
            assert(c[k] < 81);
        }
    }
    vstd::set_lib::lemma_len_subset(ds, mask::all_digits());
}

/// The cells of a combination lie in the unit.
proof fn lemma_pool_combo(g: Grid, u: int, size: nat, p: int)
    requires
        0 <= u < 27,
        0 <= p < combos::combos(subsets::pool(g, u, size), size).len(),
    ensures
        ({
            let c = combos::combos(subsets::pool(g, u, size), size)[p];
            &&& c.len() == size
            &&& c.no_duplicates()
            &&& forall|k: int|
                0 <= k < c.len() ==> #[trigger] c[k] < 81 && geometry::in_unit(u, c[k] as int)
                    && g.cells[c[k] as int] == 0 && g.cands[c[k] as int].len() >= 2
        }),
{
    let pool = subsets::pool(g, u, size);
    let c = combos::combos(pool, size)[p];
    geometry::lemma_unit(u);
    seqs::lemma_filter_members(geometry::unit(u), subsets::is_narrow(g, size));
    combos::lemma_combo(pool, size, p);
    assert forall|k: int| 0 <= k < c.len() implies #[trigger] c[k] < 81 && geometry::in_unit(
        u,
        c[k] as int,
    ) && g.cells[c[k] as int] == 0 && g.cands[c[k] as int].len() >= 2 by {
        assert(pool.contains(c[k]));
        assert(geometry::unit(u).contains(c[k]));
        let n = geometry::unit(u).index_of(c[k]);
        assert(geometry::unit(u)[n] == c[k]);
    }
}

/// What a combination from the pool of `g` strikes in `h`.
proof fn lemma_naked_strikes(g: Grid, h: Grid, u: int, size: nat, p: int, j: int, e: u8)
    requires
        grid::wf(g),
        grid::wf(h),
        0 <= u < 27,
        0 <= j < 81,
        0 <= p < combos::combos(subsets::pool(g, u, size), size).len(),
        grid::struck(
            h,
            subsets::naked_subset_at(
                h,
                u,
                combos::combos(subsets::pool(g, u, size), size)[p],
                size,
            ),
            j,
            e,
        ),
    ensures
        closed_out(size)(h, j, e),
        h == g ==> naked_out(size)(h, j, e),
{
    let c = combos::combos(subsets::pool(g, u, size), size)[p];
    lemma_pool_combo(g, u, size, p);
    lemma_union(h, c);
    c.unique_seq_to_set();
    let (cs, ds) = (c.to_set(), subsets::union_of(h, c));
    assert forall|i: usize| #[trigger] cs.contains(i) implies i < 81 && geometry::in_unit(
        u,
        i as int,
    ) && g.cells[i as int] == 0 && g.cands[i as int].len() >= 2 by {
        let k = c.index_of(i);
        assert(c[k] == i);
    }
    assert(subsets::naked_gone(u, c, ds)(j, e));
    assert(is_closed(h, u, cs, ds, size));
    assert(!cs.contains(j as usize)) by {
        if cs.contains(j as usize) {
            assert(c.contains(j as usize));
        }
    }
    if h == g {
        assert(is_naked(h, u, cs, ds, size));
    }
}

/// A naked subset is one of the combinations of its unit.
proof fn lemma_naked_listed(g: Grid, u: int, cs: Set<usize>, ds: Set<u8>, size: nat) -> (p: int)
    requires
        grid::wf(g),
        is_naked(g, u, cs, ds, size),
    ensures
        0 <= p < combos::combos(subsets::pool(g, u, size), size).len(),
        combos::combos(subsets::pool(g, u, size), size)[p].to_set() == cs,
{
    let pool = subsets::pool(g, u, size);
    geometry::lemma_unit(u);
    seqs::lemma_filter_members(geometry::unit(u), subsets::is_narrow(g, size));
    assert forall|i: usize| #[trigger] cs.contains(i) implies pool.contains(i) by {
        vstd::set_lib::lemma_len_subset(g.cands[i as int], ds);
        assert(geometry::unit(u).contains(i));
        assert(subsets::is_narrow(g, size)(i));
    }
    combos::law_every_set_is_a_combo(pool, cs)
}

/// What it rules out is struck at its turn.
proof fn lemma_naked_goes(
    g: Grid,
    u: int,
    c: Seq<usize>,
    ds: Set<u8>,
    size: nat,
    j: int,
    e: u8,
)
    requires
        grid::wf(g),
        is_closed(g, u, c.to_set(), ds, size),
        0 <= j < 81,
        geometry::in_unit(u, j),
        !c.to_set().contains(j as usize),
        ds.contains(e),
    ensures
        !subsets::naked_subset_at(g, u, c, size).cands[j].contains(e),
{
    let cs = c.to_set();
    let union = subsets::union_of(g, c);
    assert forall|x: u8| #[trigger] union.contains(x) <==> ds.contains(x) by {
        if union.contains(x) {
            let k = choose|k: int| 0 <= k < c.len() && g.cands[#[trigger] c[k] as int].contains(x);
            assert(cs.contains(c[k]));
        }
        if ds.contains(x) {
            reveal(is_held);
            let i = choose|i: usize| cs.contains(i) && #[trigger] g.cands[i as int].contains(x);
            let k = c.index_of(i);
            assert(c[k] == i);
        }
    }
    assert(union =~= ds);
    assert(!c.contains(j as usize)) by {
        if c.contains(j as usize) {
            assert(cs.contains(j as usize));
        }
    }
    assert(subsets::naked_gone(u, c, union)(j, e));
}

proof fn lemma_naked_steps(size: nat)
    ensures
        forall|h: Grid, u: int|
            0 <= u < 27 && grid::wf(h) ==> grid::follows(
                h,
                #[trigger] subsets::naked_unit_step(size)(h, u),
            ),
        forall|h: Grid, u: int|
            0 <= u < 27 && grid::wf(h) ==> (#[trigger] subsets::naked_unit_step(size)(h, u)).cells
                == h.cells,
        forall|h: Grid, u: int, cs: Seq<Seq<usize>>, p: int|
            grid::wf(h) ==> grid::follows(
                h,
                #[trigger] subsets::naked_subset_step(u, cs, size)(h, p),
            ),
{
    assert forall|h: Grid, u: int, cs: Seq<Seq<usize>>, p: int|
        grid::wf(h) implies grid::follows(
        h,
        #[trigger] subsets::naked_subset_step(u, cs, size)(h, p),
    ) by {
        subsets::lemma_naked_subset_at(h, u, cs[p], size);
    }
    assert forall|h: Grid, u: int| 0 <= u < 27 && grid::wf(h) implies grid::follows(
        h,
        #[trigger] subsets::naked_unit_step(size)(h, u),
    ) && subsets::naked_unit_step(size)(h, u).cells == h.cells by {
        let cs = combos::combos(subsets::pool(h, u, size), size);
        grid::lemma_sweep_follows(h, cs.len(), subsets::naked_subset_step(u, cs, size));
        grid::lemma_sweep_cells(h, cs.len(), subsets::naked_subset_step(u, cs, size));
    }
}

/// Naked subsets make progress exactly where, in some unit, `size` cells with a choice
/// have just `size` candidates between them, and one of these digits is a candidate
/// elsewhere in the unit. They strike a candidate only for that reason, and place
/// nothing.
pub proof fn law_naked_subsets(g: Grid, size: nat)
    requires
        grid::wf(g),
    ensures
        subsets::naked_subsets(g, size).cells == g.cells,
        subsets::naked_subsets(g, size) != g <==> exists|j: int, e: u8|
            0 <= j < 81 && g.cands[j].contains(e) && #[trigger] naked_out(size)(g, j, e),
        forall|j: int, e: u8|
            0 <= j < 81 && #[trigger] grid::struck(g, subsets::naked_subsets(g, size), j, e)
                ==> grid::caused(g, subsets::naked_subsets(g, size), closed_out(size), j, e),
{
    let step = subsets::naked_unit_step(size);
    let end = subsets::naked_subsets(g, size);
    lemma_naked_steps(size);
    grid::lemma_sweep_cells(g, 27, step);
    grid::lemma_sweep_changes(g, 27, step);
    if end != g {
        let u = choose|u: int| 0 <= u < 27 && #[trigger] step(g, u) != g;
        let cs = combos::combos(subsets::pool(g, u, size), size);
        let inner = subsets::naked_subset_step(u, cs, size);
        grid::lemma_sweep_changes(g, cs.len(), inner);
        let p = choose|p: int| 0 <= p < cs.len() && #[trigger] inner(g, p) != g;
        let (j, e) = grid::lemma_some_struck(g, inner(g, p));
        lemma_naked_strikes(g, g, u, size, p, j, e);
        assert(naked_out(size)(g, j, e));
    }
    if exists|j: int, e: u8|
        0 <= j < 81 && g.cands[j].contains(e) && #[trigger] naked_out(size)(g, j, e) {
        let (j, e) = choose|j: int, e: u8|
            0 <= j < 81 && g.cands[j].contains(e) && #[trigger] naked_out(size)(g, j, e);
        let (u, cells, ds) = choose|u: int, cs: Set<usize>, ds: Set<u8>|
            #[trigger] is_naked(g, u, cs, ds, size) && geometry::in_unit(u, j) && !cs.contains(
                j as usize,
            ) && ds.contains(e);
        let p = lemma_naked_listed(g, u, cells, ds, size);
        let cs = combos::combos(subsets::pool(g, u, size), size);
        lemma_naked_goes(g, u, cs[p], ds, size, j, e);
        let inner = subsets::naked_subset_step(u, cs, size);
        grid::lemma_sweep_changes(g, cs.len(), inner);
        assert(inner(g, p) != g);
        assert(step(g, u) != g);
    }
    assert forall|j: int, e: u8| 0 <= j < 81 && #[trigger] grid::struck(g, end, j, e) implies grid::caused(
        g,
        end,
        closed_out(size),
        j,
        e,
    ) by {
        assert forall|m: Grid, u: int| 0 <= u < 27 && grid::wf(m) && grid::struck(
            m,
            #[trigger] step(m, u),
            j,
            e,
        ) implies grid::caused(m, step(m, u), closed_out(size), j, e) by {
            let cs = combos::combos(subsets::pool(m, u, size), size);
            let inner = subsets::naked_subset_step(u, cs, size);
            assert forall|h: Grid, p: int| 0 <= p < cs.len() && grid::wf(h) && grid::struck(
                h,
                #[trigger] inner(h, p),
                j,
                e,
            ) implies grid::caused(h, inner(h, p), closed_out(size), j, e) by {
                lemma_naked_strikes(m, h, u, size, p, j, e);
                technique_laws::lemma_at_once(h, inner(h, p), closed_out(size), j, e);
            }
            grid::lemma_sweep_caused(m, cs.len(), inner, closed_out(size), j, e);
        }
        grid::lemma_sweep_caused(g, 27, step, closed_out(size), j, e);
    }
}

/// A naked subset of the start that is there at the end is there all the way.
proof fn lemma_naked_between(
    g: Grid,
    h: Grid,
    end: Grid,
    u: int,
    cs: Set<usize>,
    ds: Set<u8>,
    size: nat,
)
    requires
        grid::wf(g),
        grid::follows(g, h),
        grid::follows(h, end),
        is_naked(g, u, cs, ds, size),
        is_naked(end, u, cs, ds, size),
    ensures
        is_naked(h, u, cs, ds, size),
{
    assert forall|i: usize| #[trigger] cs.contains(i) implies h.cands[i as int].subset_of(ds)
        && h.cells[i as int] == 0 && h.cands[i as int].len() >= 2 by {
        let (before, now, after) = (g.cands[i as int], h.cands[i as int], end.cands[i as int]);
        assert(now.subset_of(before));
        assert(after.subset_of(now));
        grid::lemma_cands_finite(h, i as int);
        vstd::set_lib::lemma_len_subset(after, now);
        if h.cells[i as int] != 0 {
            assert(end.cells[i as int] == h.cells[i as int]);
        }
    }
    assert forall|e: u8| #[trigger] ds.contains(e) implies is_held(h, cs, e) by {
        reveal(is_held);
        let i = choose|i: usize| cs.contains(i) && #[trigger] end.cands[i as int].contains(e);
        assert(h.cands[i as int].contains(e));
    }
}

/// One pass of naked subsets is complete: what a naked subset ruled out at the start is
/// gone, where that naked subset is there at the end.
pub proof fn law_naked_subsets_are_complete(
    g: Grid,
    u: int,
    cs: Set<usize>,
    ds: Set<u8>,
    size: nat,
    j: int,
    e: u8,
)
    requires
        grid::wf(g),
        is_naked(g, u, cs, ds, size),
        is_naked(subsets::naked_subsets(g, size), u, cs, ds, size),
        0 <= j < 81,
        geometry::in_unit(u, j),
        !cs.contains(j as usize),
        ds.contains(e),
    ensures
        !subsets::naked_subsets(g, size).cands[j].contains(e),
{
    let step = subsets::naked_unit_step(size);
    let end = subsets::naked_subsets(g, size);
    lemma_naked_steps(size);
    let m = grid::lemma_sweep_at(g, 27, step, u);
    lemma_naked_between(g, m, end, u, cs, ds, size);
    let p = lemma_naked_listed(m, u, cs, ds, size);
    let list = combos::combos(subsets::pool(m, u, size), size);
    let inner = subsets::naked_subset_step(u, list, size);
    let h = grid::lemma_sweep_at(m, list.len(), inner, p);
    grid::lemma_chain(g, m, h);
    grid::lemma_chain(h, step(m, u), end);
    lemma_naked_between(g, h, end, u, cs, ds, size);
    lemma_naked_goes(h, u, list[p], ds, size, j, e);
    assert(!inner(h, p).cands[j].contains(e));
    assert(!step(m, u).cands[j].contains(e));
}

/// A step of naked subsets strikes a candidate exactly where the cells of the combination
/// have just as many candidates between them as there are cells, and the candidate is one
/// of these in another cell of the unit.
pub proof fn law_naked_step(g: Grid, u: int, c: Seq<usize>, size: nat, j: int, e: u8)
    requires
        grid::wf(g),
        0 <= u < 27,
        0 <= j < 81,
        c.len() == size,
        c.no_duplicates(),
        forall|k: int|
            0 <= k < c.len() ==> #[trigger] c[k] < 81 && geometry::in_unit(u, c[k] as int),
    ensures
        grid::struck(g, subsets::naked_subset_at(g, u, c, size), j, e) <==> g.cands[j].contains(e)
            && geometry::in_unit(u, j) && !c.contains(j as usize) && exists|ds: Set<u8>| #[trigger]
            is_closed(g, u, c.to_set(), ds, size) && ds.contains(e),
{
    let (cs, union) = (c.to_set(), subsets::union_of(g, c));
    lemma_union(g, c);
    c.unique_seq_to_set();
    assert(cs.contains(j as usize) <==> c.contains(j as usize));
    if grid::struck(g, subsets::naked_subset_at(g, u, c, size), j, e) {
        assert(subsets::naked_gone(u, c, union)(j, e));
        assert forall|i: usize| #[trigger] cs.contains(i) implies i < 81 && geometry::in_unit(
            u,
            i as int,
        ) by {
            let k = c.index_of(i);
            assert(c[k] == i);
        }
        assert(is_closed(g, u, cs, union, size));
    }
    if g.cands[j].contains(e) && geometry::in_unit(u, j) && !c.contains(j as usize) {
        if exists|ds: Set<u8>| #[trigger] is_closed(g, u, cs, ds, size) && ds.contains(e) {
            let ds = choose|ds: Set<u8>| #[trigger] is_closed(g, u, cs, ds, size) && ds.contains(e);
            lemma_naked_goes(g, u, c, ds, size, j, e);
        }
    }
}

// ---- Hidden subsets ----

/// The cell has a candidate among `ds`.
#[verifier::opaque]
pub open spec fn has_one_of(g: Grid, i: int, ds: Set<u8>) -> bool {
    exists|e: u8| ds.contains(e) && #[trigger] g.cands[i].contains(e)
}

/// `size` digits that no cell of unit `u` holds yet are candidates in just the `size`
/// cells `cs` of it.
pub open spec fn is_hidden(g: Grid, u: int, cs: Set<usize>, ds: Set<u8>, size: nat) -> bool {
    &&& 0 <= u < 27
    &&& cs.finite()
    &&& cs.len() == size
    &&& ds.finite()
    &&& ds.len() == size
    &&& forall|e: u8| #[trigger] ds.contains(e) ==> 1 <= e <= 9
    &&& forall|i: usize| #[trigger]
        cs.contains(i) <==> i < 81 && geometry::in_unit(u, i as int) && g.cells[i as int] == 0
            && has_one_of(g, i as int, ds)
    &&& forall|i: int|
        0 <= i < 81 && #[trigger] geometry::in_unit(u, i) ==> !ds.contains(g.cells[i])
}

/// A hidden subset of `size` digits rules `e` out in cell `j`, which is one of its cells.
pub open spec fn hidden_out(size: nat) -> spec_fn(Grid, int, u8) -> bool {
    |g: Grid, j: int, e: u8|
        exists|u: int, cs: Set<usize>, ds: Set<u8>|
            #[trigger] is_hidden(g, u, cs, ds, size) && cs.contains(j as usize) && !ds.contains(e)
}

proof fn lemma_touched_set(g: Grid, u: int, ds: Set<u8>)
    requires
        0 <= u < 27,
    ensures
        subsets::touched(g, u, ds).no_duplicates(),
        forall|i: usize| #[trigger]
            subsets::touched(g, u, ds).contains(i) <==> i < 81 && geometry::in_unit(u, i as int)
                && g.cells[i as int] == 0 && has_one_of(g, i as int, ds),
        subsets::holds_one(g, u, ds) <==> exists|i: int|
            0 <= i < 81 && #[trigger] geometry::in_unit(u, i) && ds.contains(g.cells[i]),
{
    geometry::lemma_unit(u);
    seqs::lemma_filter_members(geometry::unit(u), subsets::is_touched(g, ds));
    assert forall|i: usize| #[trigger] subsets::touched(g, u, ds).contains(i) <==> i < 81
        && geometry::in_unit(u, i as int) && g.cells[i as int] == 0 && has_one_of(
        g,
        i as int,
        ds,
    ) by {
        reveal(has_one_of);
        if geometry::unit(u).contains(i) {
            let k = geometry::unit(u).index_of(i);
            assert(geometry::unit(u)[k] == i);
        }
        if has_one_of(g, i as int, ds) {
            let e = choose|e: u8| ds.contains(e) && #[trigger] g.cands[i as int].contains(e);
            assert(ds.contains(e) && g.cands[i as int].contains(e));
        }
    }
    if subsets::holds_one(g, u, ds) {
        let k = choose|k: int|
            0 <= k < 9 && ds.contains(g.cells[#[trigger] geometry::unit(u)[k] as int]);
        assert(geometry::in_unit(u, geometry::unit(u)[k] as int));
    }
    if exists|i: int| 0 <= i < 81 && #[trigger] geometry::in_unit(u, i) && ds.contains(g.cells[i]) {
        let i = choose|i: int|
            0 <= i < 81 && #[trigger] geometry::in_unit(u, i) && ds.contains(g.cells[i]);
        assert(geometry::unit(u).contains(i as usize));
        let k = geometry::unit(u).index_of(i as usize);
        assert(geometry::unit(u)[k] == i);
    }
}

proof fn lemma_hidden_strikes(g: Grid, u: int, size: nat, p: int, j: int, e: u8)
    requires
        grid::wf(g),
        0 <= u < 27,
        0 <= j < 81,
        0 <= p < combos::combos(subsets::nine(), size).len(),
        grid::struck(g, subsets::hidden_subset_step(u, size)(g, p), j, e),
    ensures
        hidden_out(size)(g, j, e),
{
    let ds = combos::combos(subsets::nine(), size)[p].to_set();
    subset_laws::lemma_digit_combo(size, p);
    lemma_touched_set(g, u, ds);
    let c = subsets::touched(g, u, ds);
    let cs = c.to_set();
    c.unique_seq_to_set();
    assert(subsets::hidden_gone(c, ds)(j, e));
    assert forall|i: usize| #[trigger] cs.contains(i) <==> i < 81 && geometry::in_unit(u, i as int)
        && g.cells[i as int] == 0 && has_one_of(g, i as int, ds) by {
        assert(cs.contains(i) <==> c.contains(i));
    }
    assert forall|x: u8| #[trigger] ds.contains(x) implies 1 <= x <= 9 by {
        assert(mask::all_digits().contains(x));
    }
    assert(is_hidden(g, u, cs, ds, size));
}

/// A hidden subset is one of the combinations of digits.
proof fn lemma_hidden_listed(ds: Set<u8>, size: nat) -> (p: int)
    requires
        ds.finite(),
        ds.len() == size,
        forall|e: u8| #[trigger] ds.contains(e) ==> 1 <= e <= 9,
    ensures
        0 <= p < combos::combos(subsets::nine(), size).len(),
        combos::combos(subsets::nine(), size)[p].to_set() == ds,
{
    let nine = subsets::nine();
    assert forall|x: u8| #[trigger] ds.contains(x) implies nine.contains(x) by {
        assert(nine[x - 1] == x);
    }
    combos::law_every_set_is_a_combo(nine, ds)
}

/// What it rules out is struck at its turn.
proof fn lemma_hidden_goes(
    g: Grid,
    u: int,
    cs: Set<usize>,
    ds: Set<u8>,
    size: nat,
    j: int,
    e: u8,
)
    requires
        grid::wf(g),
        is_hidden(g, u, cs, ds, size),
        0 <= j < 81,
        cs.contains(j as usize),
        !ds.contains(e),
    ensures
        !subsets::hidden_subset_at(g, u, ds, size).cands[j].contains(e),
{
    lemma_touched_set(g, u, ds);
    let c = subsets::touched(g, u, ds);
    c.unique_seq_to_set();
    assert forall|i: usize| #[trigger] c.to_set().contains(i) <==> cs.contains(i) by {
        assert(c.to_set().contains(i) <==> c.contains(i));
    }
    assert(c.to_set() =~= cs);
    assert(c.contains(j as usize));
    assert(subsets::hidden_gone(c, ds)(j, e));
}

/// Hidden subsets make progress exactly where, in some unit, `size` digits that are not
/// placed in it are candidates in just `size` of its cells, and one of these cells has
/// another candidate. They strike a candidate only for that reason, and place nothing.
pub proof fn law_hidden_subsets(g: Grid, size: nat)
    requires
        grid::wf(g),
    ensures
        subsets::hidden_subsets(g, size).cells == g.cells,
        subsets::hidden_subsets(g, size) != g <==> exists|j: int, e: u8|
            0 <= j < 81 && g.cands[j].contains(e) && #[trigger] hidden_out(size)(g, j, e),
        forall|j: int, e: u8|
            0 <= j < 81 && #[trigger] grid::struck(g, subsets::hidden_subsets(g, size), j, e)
                ==> grid::caused(g, subsets::hidden_subsets(g, size), hidden_out(size), j, e),
{
    let step = subsets::hidden_unit_step(size);
    let end = subsets::hidden_subsets(g, size);
    let n = combos::combos(subsets::nine(), size).len();
    lemma_hidden_steps(size);
    grid::lemma_sweep_cells(g, 27, step);
    grid::lemma_sweep_changes(g, 27, step);
    if end != g {
        let u = choose|u: int| 0 <= u < 27 && #[trigger] step(g, u) != g;
        let inner = subsets::hidden_subset_step(u, size);
        grid::lemma_sweep_changes(g, n, inner);
        let p = choose|p: int| 0 <= p < n && #[trigger] inner(g, p) != g;
        let (j, e) = grid::lemma_some_struck(g, inner(g, p));
        lemma_hidden_strikes(g, u, size, p, j, e);
        assert(hidden_out(size)(g, j, e));
    }
    if exists|j: int, e: u8|
        0 <= j < 81 && g.cands[j].contains(e) && #[trigger] hidden_out(size)(g, j, e) {
        let (j, e) = choose|j: int, e: u8|
            0 <= j < 81 && g.cands[j].contains(e) && #[trigger] hidden_out(size)(g, j, e);
        let (u, cells, ds) = choose|u: int, cs: Set<usize>, ds: Set<u8>|
            #[trigger] is_hidden(g, u, cs, ds, size) && cs.contains(j as usize) && !ds.contains(e);
        let p = lemma_hidden_listed(ds, size);
        lemma_hidden_goes(g, u, cells, ds, size, j, e);
        let inner = subsets::hidden_subset_step(u, size);
        grid::lemma_sweep_changes(g, n, inner);
        assert(inner(g, p) != g);
        assert(step(g, u) != g);
    }
    assert forall|j: int, e: u8| 0 <= j < 81 && #[trigger] grid::struck(g, end, j, e) implies grid::caused(
        g,
        end,
        hidden_out(size),
        j,
        e,
    ) by {
        assert forall|m: Grid, u: int| 0 <= u < 27 && grid::wf(m) && grid::struck(
            m,
            #[trigger] step(m, u),
            j,
            e,
        ) implies grid::caused(m, step(m, u), hidden_out(size), j, e) by {
            let inner = subsets::hidden_subset_step(u, size);
            assert forall|h: Grid, p: int| 0 <= p < n && grid::wf(h) && grid::struck(
                h,
                #[trigger] inner(h, p),
                j,
                e,
            ) implies grid::caused(h, inner(h, p), hidden_out(size), j, e) by {
                lemma_hidden_strikes(h, u, size, p, j, e);
                technique_laws::lemma_at_once(h, inner(h, p), hidden_out(size), j, e);
            }
            grid::lemma_sweep_caused(m, n, inner, hidden_out(size), j, e);
        }
        grid::lemma_sweep_caused(g, 27, step, hidden_out(size), j, e);
    }
}

proof fn lemma_hidden_steps(size: nat)
    ensures
        forall|h: Grid, u: int, p: int|
            grid::wf(h) ==> grid::follows(h, #[trigger] subsets::hidden_subset_step(u, size)(h, p)),
        forall|h: Grid, u: int|
            0 <= u < 27 && grid::wf(h) ==> grid::follows(
                h,
                #[trigger] subsets::hidden_unit_step(size)(h, u),
            ) && subsets::hidden_unit_step(size)(h, u).cells == h.cells,
{
    let n = combos::combos(subsets::nine(), size).len();
    assert forall|h: Grid, u: int, p: int| grid::wf(h) implies grid::follows(
        h,
        #[trigger] subsets::hidden_subset_step(u, size)(h, p),
    ) by {
        subsets::lemma_hidden_subset_at(
            h,
            u,
            combos::combos(subsets::nine(), size)[p].to_set(),
            size,
        );
    }
    assert forall|h: Grid, u: int| 0 <= u < 27 && grid::wf(h) implies grid::follows(
        h,
        #[trigger] subsets::hidden_unit_step(size)(h, u),
    ) && subsets::hidden_unit_step(size)(h, u).cells == h.cells by {
        grid::lemma_sweep_follows(h, n, subsets::hidden_subset_step(u, size));
        grid::lemma_sweep_cells(h, n, subsets::hidden_subset_step(u, size));
    }
}

/// A hidden subset of the start that is there at the end is there all the way.
proof fn lemma_hidden_between(
    g: Grid,
    h: Grid,
    end: Grid,
    u: int,
    cs: Set<usize>,
    ds: Set<u8>,
    size: nat,
)
    requires
        grid::wf(g),
        grid::follows(g, h),
        grid::follows(h, end),
        is_hidden(g, u, cs, ds, size),
        is_hidden(end, u, cs, ds, size),
    ensures
        is_hidden(h, u, cs, ds, size),
{
    assert forall|i: usize| #[trigger] cs.contains(i) <==> i < 81 && geometry::in_unit(u, i as int)
        && h.cells[i as int] == 0 && has_one_of(h, i as int, ds) by {
        reveal(has_one_of);
        if cs.contains(i) {
            let e = choose|e: u8| ds.contains(e) && #[trigger] end.cands[i as int].contains(e);
            assert(h.cands[i as int].contains(e));
        }
        if i < 81 && geometry::in_unit(u, i as int) && h.cells[i as int] == 0 && has_one_of(
            h,
            i as int,
            ds,
        ) {
            let e = choose|e: u8| ds.contains(e) && #[trigger] h.cands[i as int].contains(e);
            assert(g.cands[i as int].contains(e));
            assert(has_one_of(g, i as int, ds));
        }
    }
    assert forall|i: int| 0 <= i < 81 && #[trigger] geometry::in_unit(u, i) implies !ds.contains(
        h.cells[i],
    ) by {
        if h.cells[i] != 0 {
            assert(end.cells[i] == h.cells[i]);
        }
    }
}

/// One pass of hidden subsets is complete: what a hidden subset ruled out at the start is
/// gone, where that hidden subset is there at the end.
pub proof fn law_hidden_subsets_are_complete(
    g: Grid,
    u: int,
    cs: Set<usize>,
    ds: Set<u8>,
    size: nat,
    j: int,
    e: u8,
)
    requires
        grid::wf(g),
        is_hidden(g, u, cs, ds, size),
        is_hidden(subsets::hidden_subsets(g, size), u, cs, ds, size),
        0 <= j < 81,
        cs.contains(j as usize),
        !ds.contains(e),
    ensures
        !subsets::hidden_subsets(g, size).cands[j].contains(e),
{
    let step = subsets::hidden_unit_step(size);
    let end = subsets::hidden_subsets(g, size);
    let n = combos::combos(subsets::nine(), size).len();
    lemma_hidden_steps(size);
    let m = grid::lemma_sweep_at(g, 27, step, u);
    let p = lemma_hidden_listed(ds, size);
    let inner = subsets::hidden_subset_step(u, size);
    let h = grid::lemma_sweep_at(m, n, inner, p);
    grid::lemma_chain(g, m, h);
    grid::lemma_chain(h, step(m, u), end);
    lemma_hidden_between(g, h, end, u, cs, ds, size);
    lemma_hidden_goes(h, u, cs, ds, size, j, e);
    assert(!inner(h, p).cands[j].contains(e));
    assert(!step(m, u).cands[j].contains(e));
}

} // verus!
