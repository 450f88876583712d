//! XY-Wing, XYZ-Wing and W-Wing.

use crate::board::CELLS;
use crate::chains;
use crate::chains::Link;
use crate::geometry;
use crate::grid;
use crate::grid::Grid;
use crate::mask;
use crate::seqs;
use crate::solver;
use crate::solver::Solver;
use crate::subsets;
use vstd::prelude::*;

verus! {

pub open spec fn cells() -> Seq<usize> {
    Seq::new(81, |i: int| i as usize)
}

pub open spec fn is_valued(g: Grid, n: nat) -> spec_fn(usize) -> bool {
    |i: usize| g.cells[i as int] == 0 && g.cands[i as int].len() == n
}

/// The empty cells with just `n` candidates, in reading order.
pub open spec fn valued(g: Grid, n: nat) -> Seq<usize> {
    cells().filter(is_valued(g, n))
}

/// The candidates in `ds` of the cells that see both `a` and `b`.
pub open spec fn seen_by_two(a: int, b: int, ds: Set<u8>) -> spec_fn(int, u8) -> bool {
    |j: int, e: u8| geometry::peer(j, a) && geometry::peer(j, b) && ds.contains(e)
}

/// The candidates in `ds` of the cells that see all of `a`, `b` and `c`.
pub open spec fn seen_by_three(a: int, b: int, c: int, ds: Set<u8>) -> spec_fn(int, u8) -> bool {
    |j: int, e: u8|
        geometry::peer(j, a) && geometry::peer(j, b) && geometry::peer(j, c) && ds.contains(e)
}

// ---- XY-Wing ----

/// Three cells with two candidates each, where pivot and first wing share one
/// digit and the second wing has the other two.
pub open spec fn is_xy(p: Set<u8>, a: Set<u8>, b: Set<u8>) -> bool {
    &&& p.len() == 2
    &&& a.len() == 2
    &&& p.intersect(a).len() == 1
    &&& b == p.difference(a).union(a.difference(p))
}

/// Takes the digit that the two wings share, and the pivot lacks, from the cells
/// that see both wings.
pub open spec fn xy_at(g: Grid, p: usize, a: usize, b: usize) -> Grid {
    let (ps, ws, vs) = (g.cands[p as int], g.cands[a as int], g.cands[b as int]);
    if is_xy(ps, ws, vs) {
        grid::without(g, seen_by_two(a as int, b as int, ws.difference(ps)))
    } else {
        g
    }
}

pub open spec fn is_member(s: Seq<usize>) -> spec_fn(usize) -> bool {
    |i: usize| s.contains(i)
}

/// The peers of the pivot among the cells `two`.
pub open spec fn xy_wings(two: Seq<usize>, p: usize) -> Seq<usize> {
    geometry::peer_list(p as int).filter(is_member(two))
}

pub open spec fn xy_second_step(p: usize, a: usize, ws: Seq<usize>) -> spec_fn(Grid, int) -> Grid {
    |g: Grid, k: int| xy_at(g, p, a, ws[k])
}

pub open spec fn xy_first_step(p: usize, ws: Seq<usize>) -> spec_fn(Grid, int) -> Grid {
    |g: Grid, k: int| grid::sweep(g, ws.len(), xy_second_step(p, ws[k], ws))
}

pub open spec fn xy_pivot_step(two: Seq<usize>) -> spec_fn(Grid, int) -> Grid {
    |g: Grid, k: int|
        grid::sweep(g, xy_wings(two, two[k]).len(), xy_first_step(two[k], xy_wings(two, two[k])))
}

/// XY-Wing for every pivot and every ordered pair of wings, among the cells that
/// have two candidates to begin with.
pub open spec fn xy_wing(g: Grid) -> Grid {
    grid::sweep(g, valued(g, 2).len(), xy_pivot_step(valued(g, 2)))
}

// ---- XYZ-Wing ----

/// Two wings whose candidates make up those of the pivot and share one digit.
pub open spec fn is_xyz(p: Set<u8>, a: Set<u8>, b: Set<u8>) -> bool {
    a.union(b) == p && a.intersect(b).len() == 1
}

/// Takes the digit that the two wings share from the cells that see the pivot and
/// both wings.
pub open spec fn xyz_at(g: Grid, p: usize, a: usize, b: usize) -> Grid {
    let (ps, ws, vs) = (g.cands[p as int], g.cands[a as int], g.cands[b as int]);
    if is_xyz(ps, ws, vs) {
        grid::without(g, seen_by_three(p as int, a as int, b as int, ws.intersect(vs)))
    } else {
        g
    }
}

pub open spec fn is_xyz_wing(g: Grid, p: usize) -> spec_fn(usize) -> bool {
    |i: usize|
        g.cells[i as int] == 0 && g.cands[i as int].len() == 2 && g.cands[i as int].subset_of(
            g.cands[p as int],
        )
}

/// The peers of the pivot with two candidates, both of them the pivot's too.
pub open spec fn xyz_wings(g: Grid, p: usize) -> Seq<usize> {
    geometry::peer_list(p as int).filter(is_xyz_wing(g, p))
}

pub open spec fn xyz_second_step(p: usize, ws: Seq<usize>, n: int) -> spec_fn(Grid, int) -> Grid {
    |g: Grid, k: int|
        if n < k {
            xyz_at(g, p, ws[n], ws[k])
        } else {
            g
        }
}

pub open spec fn xyz_first_step(p: usize, ws: Seq<usize>) -> spec_fn(Grid, int) -> Grid {
    |g: Grid, n: int| grid::sweep(g, ws.len(), xyz_second_step(p, ws, n))
}

pub open spec fn xyz_pivot_step(three: Seq<usize>) -> spec_fn(Grid, int) -> Grid {
    |g: Grid, k: int|
        grid::sweep(
            g,
            xyz_wings(g, three[k]).len(),
            xyz_first_step(three[k], xyz_wings(g, three[k])),
        )
}

/// XYZ-Wing for every cell that has three candidates to begin with, as pivot, and
/// every pair of wings.
pub open spec fn xyz_wing(g: Grid) -> Grid {
    grid::sweep(g, valued(g, 3).len(), xyz_pivot_step(valued(g, 3)))
}

// ---- W-Wing ----

/// One end of the link sees `a` and the other sees `b`, and neither is one of
/// them.
pub open spec fn is_bridge(l: Link, a: int, b: int) -> bool {
    &&& l.0 != a && l.0 != b && l.1 != a && l.1 != b
    &&& (geometry::peer(l.0 as int, a) && geometry::peer(l.1 as int, b)) || (geometry::peer(
        l.1 as int,
        a,
    ) && geometry::peer(l.0 as int, b))
}

/// Some link bridges `a` and `b`.
pub open spec fn bridged(ls: Seq<Link>, a: int, b: int) -> bool {
    exists|k: int| 0 <= k < ls.len() && is_bridge(#[trigger] ls[k], a, b)
}

/// A strong link of the grid `g0` for a digit of `ds` other than `e` bridges the
/// two cells.
pub open spec fn other_bridged(g0: Grid, ds: Set<u8>, a: int, b: int, e: u8) -> bool {
    exists|y: u8| y != e && ds.contains(y) && #[trigger] bridged(chains::links(g0, y), a, b)
}

/// A digit of the two cells `a` and `b`, in a cell that sees both, where a strong
/// link of the grid `g0` for their other digit bridges them.
pub open spec fn w_gone(g0: Grid, ds: Set<u8>, a: int, b: int) -> spec_fn(int, u8) -> bool {
    |j: int, e: u8|
        geometry::peer(j, a) && geometry::peer(j, b) && ds.contains(e) && other_bridged(
            g0,
            ds,
            a,
            b,
            e,
        )
}

/// W-Wing on two cells with the same two candidates that are no peers.
pub open spec fn w_at(g0: Grid, g: Grid, a: usize, b: usize) -> Grid {
    let ds = g.cands[a as int];
    if ds == g.cands[b as int] && ds.len() == 2 && !geometry::peer(a as int, b as int) {
        grid::without(g, w_gone(g0, ds, a as int, b as int))
    } else {
        g
    }
}

pub open spec fn w_second_step(g0: Grid, two: Seq<usize>, n: int) -> spec_fn(Grid, int) -> Grid {
    |g: Grid, k: int|
        if n < k {
            w_at(g0, g, two[n], two[k])
        } else {
            g
        }
}

pub open spec fn w_first_step(g0: Grid, two: Seq<usize>) -> spec_fn(Grid, int) -> Grid {
    |g: Grid, n: int| grid::sweep(g, two.len(), w_second_step(g0, two, n))
}

/// W-Wing for every pair of cells that have two candidates to begin with.
pub open spec fn w_wing(g: Grid) -> Grid {
    grid::sweep(g, valued(g, 2).len(), w_first_step(g, valued(g, 2)))
}

// ---- What the steps keep ----

pub proof fn lemma_xy_steps(two: Seq<usize>)
    ensures
        forall|p: usize, a: usize, ws: Seq<usize>, h: Grid, k: int|
            grid::wf(h) ==> grid::follows(h, #[trigger] xy_second_step(p, a, ws)(h, k)),
        forall|p: usize, ws: Seq<usize>, h: Grid, k: int|
            grid::wf(h) ==> grid::follows(h, #[trigger] xy_first_step(p, ws)(h, k)),
        forall|h: Grid, k: int|
            grid::wf(h) ==> grid::follows(h, #[trigger] xy_pivot_step(two)(h, k)),
{
    assert forall|p: usize, a: usize, ws: Seq<usize>, h: Grid, k: int|
        grid::wf(h) implies grid::follows(h, #[trigger] xy_second_step(p, a, ws)(h, k)) by {
        grid::lemma_without(
            h,
            seen_by_two(
                a as int,
                ws[k] as int,
                h.cands[a as int].difference(h.cands[p as int]),
            ),
        );
    }
    assert forall|p: usize, ws: Seq<usize>, h: Grid, k: int|
        grid::wf(h) implies grid::follows(h, #[trigger] xy_first_step(p, ws)(h, k)) by {
        grid::lemma_sweep_follows(h, ws.len(), xy_second_step(p, ws[k], ws));
    }
    assert forall|h: Grid, k: int|
        grid::wf(h) implies grid::follows(h, #[trigger] xy_pivot_step(two)(h, k)) by {
        let ws = xy_wings(two, two[k]);
        grid::lemma_sweep_follows(h, ws.len(), xy_first_step(two[k], ws));
    }
}

pub proof fn lemma_xy_wing(g: Grid)
    requires
        grid::wf(g),
    ensures
        grid::follows(g, xy_wing(g)),
{
    lemma_xy_steps(valued(g, 2));
    grid::lemma_sweep_follows(g, valued(g, 2).len(), xy_pivot_step(valued(g, 2)));
}

pub proof fn lemma_xyz_steps(three: Seq<usize>)
    ensures
        forall|p: usize, ws: Seq<usize>, n: int, h: Grid, k: int|
            grid::wf(h) ==> grid::follows(h, #[trigger] xyz_second_step(p, ws, n)(h, k)),
        forall|p: usize, ws: Seq<usize>, h: Grid, k: int|
            grid::wf(h) ==> grid::follows(h, #[trigger] xyz_first_step(p, ws)(h, k)),
        forall|h: Grid, k: int|
            grid::wf(h) ==> grid::follows(h, #[trigger] xyz_pivot_step(three)(h, k)),
{
    assert forall|p: usize, ws: Seq<usize>, n: int, h: Grid, k: int|
        grid::wf(h) implies grid::follows(h, #[trigger] xyz_second_step(p, ws, n)(h, k)) by {
        grid::lemma_without(
            h,
            seen_by_three(
                p as int,
                ws[n] as int,
                ws[k] as int,
                h.cands[ws[n] as int].intersect(h.cands[ws[k] as int]),
            ),
        );
    }
    assert forall|p: usize, ws: Seq<usize>, h: Grid, k: int|
        grid::wf(h) implies grid::follows(h, #[trigger] xyz_first_step(p, ws)(h, k)) by {
        grid::lemma_sweep_follows(h, ws.len(), xyz_second_step(p, ws, k));
    }
    assert forall|h: Grid, k: int|
        grid::wf(h) implies grid::follows(h, #[trigger] xyz_pivot_step(three)(h, k)) by {
        let ws = xyz_wings(h, three[k]);
        grid::lemma_sweep_follows(h, ws.len(), xyz_first_step(three[k], ws));
    }
}

pub proof fn lemma_xyz_wing(g: Grid)
    requires
        grid::wf(g),
    ensures
        grid::follows(g, xyz_wing(g)),
{
    lemma_xyz_steps(valued(g, 3));
    grid::lemma_sweep_follows(g, valued(g, 3).len(), xyz_pivot_step(valued(g, 3)));
}

pub proof fn lemma_w_steps(g0: Grid, two: Seq<usize>)
    ensures
        forall|n: int, h: Grid, k: int|
            grid::wf(h) ==> grid::follows(h, #[trigger] w_second_step(g0, two, n)(h, k)),
        forall|h: Grid, k: int|
            grid::wf(h) ==> grid::follows(h, #[trigger] w_first_step(g0, two)(h, k)),
{
    assert forall|n: int, h: Grid, k: int|
        grid::wf(h) implies grid::follows(h, #[trigger] w_second_step(g0, two, n)(h, k)) by {
        grid::lemma_without(
            h,
            w_gone(g0, h.cands[two[n] as int], two[n] as int, two[k] as int),
        );
    }
    assert forall|h: Grid, k: int|
        grid::wf(h) implies grid::follows(h, #[trigger] w_first_step(g0, two)(h, k)) by {
        grid::lemma_sweep_follows(h, two.len(), w_second_step(g0, two, k));
    }
}

pub proof fn lemma_w_wing(g: Grid)
    requires
        grid::wf(g),
    ensures
        grid::follows(g, w_wing(g)),
{
    lemma_w_steps(g, valued(g, 2));
    grid::lemma_sweep_follows(g, valued(g, 2).len(), w_first_step(g, valued(g, 2)));
}

// ---- Execution ----

/// The cells that see both `a` and `b`.
fn common_peers(a: usize, b: usize) -> (v: Vec<usize>)
    ensures
        forall|k: int| 0 <= k < v@.len() ==> #[trigger] v@[k] < 81,
        forall|j: usize| #[trigger]
            v@.contains(j) <==> j < 81 && geometry::peer(j as int, a as int) && geometry::peer(
                j as int,
                b as int,
            ),
{
    let mut v: Vec<usize> = Vec::new();
    let mut i: usize = 0;
    while i < CELLS
        invariant
            i <= 81,
            forall|k: int| 0 <= k < v@.len() ==> #[trigger] v@[k] < i,
            forall|j: usize| #[trigger]
                v@.contains(j) <==> j < i && geometry::peer(j as int, a as int) && geometry::peer(
                    j as int,
                    b as int,
                ),
        decreases 81 - i,
    {
        let ghost before = v@;
        if geometry::is_peer(i, a) && geometry::is_peer(i, b) {
            v.push(i);
        }
        proof {
            solver::lemma_push_members(before, i);
        }
        i = i + 1;
    }
    v
}

/// The cells that see all of `a`, `b` and `c`.
fn triple_peers(a: usize, b: usize, c: usize) -> (v: Vec<usize>)
    ensures
        forall|k: int| 0 <= k < v@.len() ==> #[trigger] v@[k] < 81,
        forall|j: usize| #[trigger]
            v@.contains(j) <==> j < 81 && geometry::peer(j as int, a as int) && geometry::peer(
                j as int,
                b as int,
            ) && geometry::peer(j as int, c as int),
{
    let mut v: Vec<usize> = Vec::new();
    let mut i: usize = 0;
    while i < CELLS
        invariant
            i <= 81,
            forall|k: int| 0 <= k < v@.len() ==> #[trigger] v@[k] < i,
            forall|j: usize| #[trigger]
                v@.contains(j) <==> j < i && geometry::peer(j as int, a as int) && geometry::peer(
                    j as int,
                    b as int,
                ) && geometry::peer(j as int, c as int),
        decreases 81 - i,
    {
        let ghost before = v@;
        if geometry::is_peer(i, a) && geometry::is_peer(i, b) && geometry::is_peer(i, c) {
            v.push(i);
        }
        proof {
            solver::lemma_push_members(before, i);
        }
        i = i + 1;
    }
    v
}

pub proof fn lemma_valued(g: Grid, n: nat)
    ensures
        valued(g, n).no_duplicates(),
        forall|i: usize| #[trigger] valued(g, n).contains(i) <==> i < 81 && is_valued(g, n)(i),
        forall|k: int|
            0 <= k < valued(g, n).len() ==> #[trigger] valued(g, n)[k] < 81 && is_valued(g, n)(
                valued(g, n)[k],
            ),
{
    seqs::lemma_filter_members(cells(), is_valued(g, n));
    let s = valued(g, n);
    assert forall|i: usize| #[trigger] s.contains(i) <==> i < 81 && is_valued(g, n)(i) by {
        if i < 81 {
            assert(cells()[i as int] == i);
        }
    }
    assert forall|k: int| 0 <= k < s.len() implies #[trigger] s[k] < 81 && is_valued(g, n)(s[k]) by {
        assert(s.contains(s[k]));
    }
}

pub proof fn lemma_xy_wings(two: Seq<usize>, p: usize)
    requires
        p < 81,
    ensures
        forall|k: int|
            0 <= k < xy_wings(two, p).len() ==> #[trigger] xy_wings(two, p)[k] < 81
                && geometry::peer(p as int, xy_wings(two, p)[k] as int),
{
    geometry::law_peer_list(p as int);
    seqs::lemma_filter_members(geometry::peer_list(p as int), is_member(two));
    let s = xy_wings(two, p);
    assert forall|k: int| 0 <= k < s.len() implies #[trigger] s[k] < 81 && geometry::peer(
        p as int,
        s[k] as int,
    ) by {
        assert(s.contains(s[k]));
    }
}

pub proof fn lemma_xyz_wings(g: Grid, p: usize)
    requires
        p < 81,
    ensures
        forall|k: int|
            0 <= k < xyz_wings(g, p).len() ==> #[trigger] xyz_wings(g, p)[k] < 81
                && geometry::peer(p as int, xyz_wings(g, p)[k] as int) && is_xyz_wing(g, p)(
                xyz_wings(g, p)[k],
            ),
{
    geometry::law_peer_list(p as int);
    seqs::lemma_filter_members(geometry::peer_list(p as int), is_xyz_wing(g, p));
    let s = xyz_wings(g, p);
    assert forall|k: int| 0 <= k < s.len() implies #[trigger] s[k] < 81 && geometry::peer(
        p as int,
        s[k] as int,
    ) && is_xyz_wing(g, p)(s[k]) by {
        assert(s.contains(s[k]));
    }
}

impl Solver {
    /// The empty cells with just `n` candidates.
    fn cells_with_count(&self, n: usize) -> (v: Vec<usize>)
        ensures
            v@ == valued(self@, n as nat),
    {
        let ghost pred = is_valued(self@, n as nat);
        let mut v: Vec<usize> = Vec::new();
        let mut i: usize = 0;
        proof {
            seqs::lemma_filter_ends(cells(), pred);
        }
        while i < CELLS
            invariant
                i <= 81,
                pred == is_valued(self@, n as nat),
                v@ == cells().take(i as int).filter(pred),
            decreases 81 - i,
        {
            proof {
                seqs::lemma_filter_step(cells(), i as int, pred);
            }
            if self.cell(i) == 0 && mask::count(self.mask(i)) == n {
                v.push(i);
            }
            i = i + 1;
        }
        v
    }

    fn xy(&mut self, p: usize, a: usize, b: usize) -> (changed: bool)
        requires
            grid::wf(old(self)@),
            p < 81,
            a < 81,
            b < 81,
        ensures
            final(self)@ == xy_at(old(self)@, p, a, b),
            changed == (final(self)@ != old(self)@),
    {
        let ghost g = self@;
        let ps = self.mask(p);
        let ws = self.mask(a);
        let vs = self.mask(b);
        proof {
            mask::lemma_mask_ops(ps, ws);
            mask::lemma_mask_ops(ws, ps);
            if mask::digits_of(vs) == mask::digits_of(ps ^ ws) {
                mask::lemma_mask_ext(vs, ps ^ ws);
            }
        }
        if mask::count(ps) == 2 && mask::count(ws) == 2 && mask::count(ps & ws) == 1 && vs == ps ^ ws {
            let victims = common_peers(a, b);
            proof {
                let ds = mask::digits_of(ws & !ps);
                let gone = seen_by_two(a as int, b as int, ds);
                assert forall|j: int, e: u8| 0 <= j < 81 && g.cands[j].contains(e) implies solver::hits(
                    victims@,
                    ds,
                )(j, e) == #[trigger] gone(j, e) by {
                    assert(victims@.contains(j as usize) || !victims@.contains(j as usize));
                }
                grid::lemma_same_gone(g, solver::hits(victims@, ds), gone);
            }
            self.strike(&victims, ws & !ps)
        } else {
            false
        }
    }

    /// XY-Wing: a pivot with the candidates x and y, a wing with x and z, and a
    /// wing with y and z. One of the wings is z, so no cell that sees both can be.
    /// A pivot that an elimination has left with fewer than two candidates is
    /// passed over.
    pub fn apply_xy_wing(&mut self) -> (progressed: bool)
        requires
            grid::wf(old(self)@),
        ensures
            final(self)@ == xy_wing(old(self)@),
            progressed == (final(self)@ != old(self)@),
            grid::follows(old(self)@, final(self)@),
    {
        let ghost g = self@;
        let two = self.cells_with_count(2);
        let mut progressed = false;
        let mut k: usize = 0;
        proof {
            lemma_xy_steps(two@);
            lemma_valued(g, 2);
        }
        while k < two.len()
            invariant
                k <= two@.len(),
                g == old(self)@,
                grid::wf(g),
                grid::follows(g, self@),
                two@ == valued(g, 2),
                forall|n: int| 0 <= n < two@.len() ==> #[trigger] two@[n] < 81,
                self@ == grid::sweep(g, k as nat, xy_pivot_step(two@)),
                progressed == (self@ != g),
            decreases two@.len() - k,
        {
            let ghost h = self@;
            let pivot = two[k];
            proof {
                lemma_xy_steps(two@);
                grid::lemma_chain(g, h, xy_pivot_step(two@)(h, k as int));
            }
            if self.xy_pivot(pivot, &two) {
                progressed = true;
            }
            k = k + 1;
        }
        progressed
    }

    fn xy_pivot(&mut self, pivot: usize, two: &Vec<usize>) -> (progressed: bool)
        requires
            grid::wf(old(self)@),
            pivot < 81,
        ensures
            final(self)@ == grid::sweep(
                old(self)@,
                xy_wings(two@, pivot).len(),
                xy_first_step(pivot, xy_wings(two@, pivot)),
            ),
            progressed == (final(self)@ != old(self)@),
    {
        let ghost g = self@;
        let peers = geometry::peers_of(pivot);
        let mut ws: Vec<usize> = Vec::new();
        let ghost pred = is_member(two@);
        let mut n: usize = 0;
        proof {
            seqs::lemma_filter_ends(peers@, pred);
        }
        while n < peers.len()
            invariant
                n <= peers@.len(),
                pred == is_member(two@),
                ws@ == peers@.take(n as int).filter(pred),
            decreases peers@.len() - n,
        {
            proof {
                seqs::lemma_filter_step(peers@, n as int, pred);
            }
            if subsets::list_has(two, peers[n]) {
                ws.push(peers[n]);
            }
            n = n + 1;
        }
        proof {
            lemma_xy_wings(two@, pivot);
            lemma_xy_steps(two@);
        }
        let mut progressed = false;
        let mut i: usize = 0;
        while i < ws.len()
            invariant
                i <= ws@.len(),
                pivot < 81,
                g == old(self)@,
                grid::wf(g),
                grid::follows(g, self@),
                ws@ == xy_wings(two@, pivot),
                forall|m: int| 0 <= m < ws@.len() ==> #[trigger] ws@[m] < 81,
                self@ == grid::sweep(g, i as nat, xy_first_step(pivot, ws@)),
                progressed == (self@ != g),
            decreases ws@.len() - i,
        {
            let ghost mid = self@;
            let a = ws[i];
            let mut j: usize = 0;
            proof {
                lemma_xy_steps(two@);
            }
            while j < ws.len()
                invariant
                    j <= ws@.len(),
                    pivot < 81,
                    a < 81,
                    grid::wf(g),
                    grid::follows(g, self@),
                    forall|m: int| 0 <= m < ws@.len() ==> #[trigger] ws@[m] < 81,
                    self@ == grid::sweep(mid, j as nat, xy_second_step(pivot, a, ws@)),
                    progressed == (self@ != g),
                decreases ws@.len() - j,
            {
                let ghost h = self@;
                proof {
                    lemma_xy_steps(two@);
                    grid::lemma_chain(g, h, xy_second_step(pivot, a, ws@)(h, j as int));
                }
                if self.xy(pivot, a, ws[j]) {
                    progressed = true;
                }
                j = j + 1;
            }
            i = i + 1;
        }
        progressed
    }

    fn xyz(&mut self, p: usize, a: usize, b: usize) -> (changed: bool)
        requires
            grid::wf(old(self)@),
            p < 81,
            a < 81,
            b < 81,
        ensures
            final(self)@ == xyz_at(old(self)@, p, a, b),
            changed == (final(self)@ != old(self)@),
    {
        let ghost g = self@;
        let ps = self.mask(p);
        let ws = self.mask(a);
        let vs = self.mask(b);
        proof {
            mask::lemma_mask_ops(ws, vs);
            if mask::digits_of(ws | vs) == mask::digits_of(ps) {
                mask::lemma_mask_ext(ws | vs, ps);
            }
        }
        if ws | vs == ps && mask::count(ws & vs) == 1 {
            let victims = triple_peers(p, a, b);
            proof {
                let ds = mask::digits_of(ws & vs);
                let gone = seen_by_three(p as int, a as int, b as int, ds);
                assert forall|j: int, e: u8| 0 <= j < 81 && g.cands[j].contains(e) implies solver::hits(
                    victims@,
                    ds,
                )(j, e) == #[trigger] gone(j, e) by {
                    assert(victims@.contains(j as usize) || !victims@.contains(j as usize));
                }
                grid::lemma_same_gone(g, solver::hits(victims@, ds), gone);
            }
            self.strike(&victims, ws & vs)
        } else {
            false
        }
    }

    fn xyz_pivot(&mut self, pivot: usize) -> (progressed: bool)
        requires
            grid::wf(old(self)@),
            pivot < 81,
        ensures
            final(self)@ == grid::sweep(
                old(self)@,
                xyz_wings(old(self)@, pivot).len(),
                xyz_first_step(pivot, xyz_wings(old(self)@, pivot)),
            ),
            progressed == (final(self)@ != old(self)@),
    {
        let ghost g = self@;
        let peers = geometry::peers_of(pivot);
        let ps = self.mask(pivot);
        let mut ws: Vec<usize> = Vec::new();
        let ghost pred = is_xyz_wing(g, pivot);
        let mut n: usize = 0;
        proof {
            seqs::lemma_filter_ends(peers@, pred);
            geometry::law_peer_list(pivot as int);
            mask::lemma_mask_consts(0);
        }
        while n < peers.len()
            invariant
                n <= peers@.len(),
                g == self@,
                pivot < 81,
                mask::digits_of(ps) == g.cands[pivot as int],
                mask::digits_of(0) == Set::<u8>::empty(),
                pred == is_xyz_wing(g, pivot),
                peers@ == geometry::peer_list(pivot as int),
                forall|q: usize| #[trigger]
                    peers@.contains(q) <==> q < 81 && geometry::peer(pivot as int, q as int),
                ws@ == peers@.take(n as int).filter(pred),
            decreases peers@.len() - n,
        {
            let q = peers[n];
            assert(peers@.contains(q));
            let m = self.mask(q);
            proof {
                seqs::lemma_filter_step(peers@, n as int, pred);
                mask::lemma_mask_ops(m, ps);
                let rest = mask::digits_of(m & !ps);
                if m & !ps == 0 {
                    assert forall|e: u8| #[trigger] mask::digits_of(m).contains(e) implies mask::digits_of(
                        ps,
                    ).contains(e) by {
                        assert(!rest.contains(e));
                    }
                }
                if mask::digits_of(m).subset_of(mask::digits_of(ps)) {
                    assert(rest =~= Set::<u8>::empty());
                    mask::lemma_mask_ext(m & !ps, 0);
                }
            }
            if self.cell(q) == 0 && mask::count(m) == 2 && m & !ps == 0 {
                ws.push(q);
            }
            n = n + 1;
        }
        proof {
            lemma_xyz_wings(g, pivot);
        }
        let mut progressed = false;
        let mut i: usize = 0;
        while i < ws.len()
            invariant
                i <= ws@.len(),
                pivot < 81,
                g == old(self)@,
                grid::wf(g),
                grid::follows(g, self@),
                ws@ == xyz_wings(g, pivot),
                forall|m: int| 0 <= m < ws@.len() ==> #[trigger] ws@[m] < 81,
                self@ == grid::sweep(g, i as nat, xyz_first_step(pivot, ws@)),
                progressed == (self@ != g),
            decreases ws@.len() - i,
        {
            let ghost mid = self@;
            let a = ws[i];
            let mut j: usize = 0;
            while j < ws.len()
                invariant
                    i < ws@.len(),
                    j <= ws@.len(),
                    pivot < 81,
                    a == ws@[i as int],
                    grid::wf(g),
                    grid::follows(g, self@),
                    forall|m: int| 0 <= m < ws@.len() ==> #[trigger] ws@[m] < 81,
                    self@ == grid::sweep(mid, j as nat, xyz_second_step(pivot, ws@, i as int)),
                    progressed == (self@ != g),
                decreases ws@.len() - j,
            {
                let ghost h = self@;
                proof {
                    lemma_xyz_steps(ws@);
                    grid::lemma_chain(g, h, xyz_second_step(pivot, ws@, i as int)(h, j as int));
                }
                if i < j {
                    if self.xyz(pivot, a, ws[j]) {
                        progressed = true;
                    }
                }
                j = j + 1;
            }
            i = i + 1;
        }
        progressed
    }

    /// XYZ-Wing: a pivot with the candidates x, y and z, and two wings with x, z
    /// and y, z. One of the three is z, so no cell that sees them all can be.
    pub fn apply_xyz_wing(&mut self) -> (progressed: bool)
        requires
            grid::wf(old(self)@),
        ensures
            final(self)@ == xyz_wing(old(self)@),
            progressed == (final(self)@ != old(self)@),
            grid::follows(old(self)@, final(self)@),
    {
        let ghost g = self@;
        let three = self.cells_with_count(3);
        let mut progressed = false;
        let mut k: usize = 0;
        proof {
            lemma_valued(g, 3);
        }
        while k < three.len()
            invariant
                k <= three@.len(),
                g == old(self)@,
                grid::wf(g),
                grid::follows(g, self@),
                three@ == valued(g, 3),
                forall|n: int| 0 <= n < three@.len() ==> #[trigger] three@[n] < 81,
                self@ == grid::sweep(g, k as nat, xyz_pivot_step(three@)),
                progressed == (self@ != g),
            decreases three@.len() - k,
        {
            let ghost h = self@;
            proof {
                lemma_xyz_steps(three@);
                grid::lemma_chain(g, h, xyz_pivot_step(three@)(h, k as int));
            }
            if self.xyz_pivot(three[k]) {
                progressed = true;
            }
            k = k + 1;
        }
        progressed
    }

    fn w(&mut self, links: &Vec<Vec<Link>>, a: usize, b: usize, Ghost(g0): Ghost<Grid>) -> (changed:
        bool)
        requires
            grid::wf(old(self)@),
            a < 81,
            b < 81,
            links@.len() == 10,
            forall|y: int| 0 <= y < 10 ==> (#[trigger] links@[y])@ == chains::links(g0, y as u8),
        ensures
            final(self)@ == w_at(g0, old(self)@, a, b),
            changed == (final(self)@ != old(self)@),
    {
        let ghost g = self@;
        let m = self.mask(a);
        let ghost ds = mask::digits_of(m);
        let other = self.mask(b);
        proof {
            if mask::digits_of(m) == mask::digits_of(other) {
                mask::lemma_mask_ext(m, other);
            }
        }
        if m != other || mask::count(m) != 2 || geometry::is_peer(a, b) {
            return false;
        }
        let mut kill: u16 = 0;
        let mut e: u8 = 1;
        proof {
            mask::lemma_mask_consts(0);
            mask::lemma_digits_finite(m);
            assert(forall|c: u8| #[trigger] ds.contains(c) ==> 1 <= c <= 9);
        }
        while e < 10
            invariant
                1 <= e <= 10,
                ds == mask::digits_of(m),
                ds.len() == 2,
                ds.finite(),
                forall|c: u8| #[trigger] ds.contains(c) ==> 1 <= c <= 9,
                links@.len() == 10,
                forall|y: int| 0 <= y < 10 ==> (#[trigger] links@[y])@ == chains::links(g0, y as u8),
                forall|c: u8| #[trigger]
                    mask::digits_of(kill).contains(c) <==> c < e && ds.contains(c) && other_bridged(
                        g0,
                        ds,
                        a as int,
                        b as int,
                        c,
                    ),
            decreases 10 - e,
        {
            let bit: u16 = 1u16 << e;
            proof {
                mask::lemma_mask_consts(e);
                mask::lemma_mask_ops(m, bit);
                mask::lemma_mask_ops(kill, bit);
            }
            if m & bit != 0 {
                assert(ds.contains(e));
                let rest = m & !bit;
                assert(mask::digits_of(rest) =~= ds.remove(e));
                let y = mask::lowest(rest);
                proof {
                    assert forall|c: u8| c != e && #[trigger] ds.contains(c) implies c == y by {
                        assert(ds.remove(e).contains(c));
                        seqs::lemma_singleton(ds.remove(e), c);
                        seqs::lemma_singleton(ds.remove(e), y);
                    }
                    assert(ds.remove(e).contains(y));
                    assert(other_bridged(g0, ds, a as int, b as int, e) == bridged(
                        chains::links(g0, y),
                        a as int,
                        b as int,
                    ));
                }
                if has_bridge(&links[y as usize], a, b) {
                    kill = kill | bit;
                }
            } else {
                assert(!ds.contains(e));
            }
            e = e + 1;
        }
        let victims = common_peers(a, b);
        proof {
            let dead = mask::digits_of(kill);
            let gone = w_gone(g0, ds, a as int, b as int);
            assert forall|j: int, c: u8| 0 <= j < 81 && g.cands[j].contains(c) implies solver::hits(
                victims@,
                dead,
            )(j, c) == #[trigger] gone(j, c) by {
                assert(victims@.contains(j as usize) || !victims@.contains(j as usize));
                assert(dead.contains(c) || !dead.contains(c));
            }
            grid::lemma_same_gone(g, solver::hits(victims@, dead), gone);
        }
        self.strike(&victims, kill)
    }

    /// W-Wing: two cells with the same two candidates that see opposite ends of a
    /// strong link for one of them. One of the two cells is the other digit, so no
    /// cell that sees both can be. Cells that an elimination has left with fewer
    /// than two candidates are passed over.
    pub fn apply_w_wing(&mut self) -> (progressed: bool)
        requires
            grid::wf(old(self)@),
        ensures
            final(self)@ == w_wing(old(self)@),
            progressed == (final(self)@ != old(self)@),
            grid::follows(old(self)@, final(self)@),
    {
        let ghost g = self@;
        let two = self.cells_with_count(2);
        let mut links: Vec<Vec<Link>> = Vec::new();
        let mut d: u8 = 0;
        while d < 10
            invariant
                d <= 10,
                g == self@,
                links@.len() == d,
                forall|y: int| 0 <= y < d ==> (#[trigger] links@[y])@ == chains::links(g, y as u8),
            decreases 10 - d,
        {
            links.push(chains::strong_links(self, d));
            d = d + 1;
        }
        let mut progressed = false;
        let mut n: usize = 0;
        proof {
            lemma_valued(g, 2);
        }
        while n < two.len()
            invariant
                n <= two@.len(),
                g == old(self)@,
                grid::wf(g),
                grid::follows(g, self@),
                two@ == valued(g, 2),
                forall|m: int| 0 <= m < two@.len() ==> #[trigger] two@[m] < 81,
                links@.len() == 10,
                forall|y: int| 0 <= y < 10 ==> (#[trigger] links@[y])@ == chains::links(g, y as u8),
                self@ == grid::sweep(g, n as nat, w_first_step(g, two@)),
                progressed == (self@ != g),
            decreases two@.len() - n,
        {
            let ghost mid = self@;
            let mut k: usize = 0;
            while k < two.len()
                invariant
                    n < two@.len(),
                    k <= two@.len(),
                    grid::wf(g),
                    grid::follows(g, self@),
                    forall|m: int| 0 <= m < two@.len() ==> #[trigger] two@[m] < 81,
                    links@.len() == 10,
                    forall|y: int|
                        0 <= y < 10 ==> (#[trigger] links@[y])@ == chains::links(g, y as u8),
                    self@ == grid::sweep(mid, k as nat, w_second_step(g, two@, n as int)),
                    progressed == (self@ != g),
                decreases two@.len() - k,
            {
                let ghost h = self@;
                proof {
                    lemma_w_steps(g, two@);
                    grid::lemma_chain(g, h, w_second_step(g, two@, n as int)(h, k as int));
                }
                if n < k {
                    if self.w(&links, two[n], two[k], Ghost(g)) {
                        progressed = true;
                    }
                }
                k = k + 1;
            }
            n = n + 1;
        }
        progressed
    }
}

fn has_bridge(ls: &Vec<Link>, a: usize, b: usize) -> (yes: bool)
    ensures
        yes == bridged(ls@, a as int, b as int),
{
    let mut k: usize = 0;
    while k < ls.len()
        invariant
            k <= ls@.len(),
            forall|n: int| 0 <= n < k ==> !is_bridge(#[trigger] ls@[n], a as int, b as int),
        decreases ls@.len() - k,
    {
        let (p, q) = ls[k];
        let apart = p != a && p != b && q != a && q != b;
        if apart && ((geometry::is_peer(p, a) && geometry::is_peer(q, b)) || (geometry::is_peer(q, a)
            && geometry::is_peer(p, b))) {
            assert(is_bridge(ls@[k as int], a as int, b as int));
            return true;
        }
        assert(!is_bridge(ls@[k as int], a as int, b as int));
        k = k + 1;
    }
    false
}

/// The cells with so many candidates come in reading order.
pub proof fn law_valued_in_order(g: Grid, n: nat, j: int, k: int)
    requires
        0 <= j < k < valued(g, n).len(),
    ensures
        valued(g, n)[j] < valued(g, n)[k],
{
    seqs::lemma_filter_sorted(cells(), is_valued(g, n));
}

} // verus!
