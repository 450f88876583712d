//! What a strong link is: the two places that a row, a column or a box has left for a
//! digit.

use crate::chains;
use crate::geometry;
use crate::grid;
use crate::grid::Grid;
use crate::spots;
use crate::technique_laws;
use vstd::prelude::*;

verus! {

/// `s` and `t` are the only two cells of their row, of their column or of their box that
/// can become `d`.
pub open spec fn is_paired(g: Grid, d: u8, s: int, t: int) -> bool {
    &&& s != t
    &&& technique_laws::spot(g, s, d)
    &&& technique_laws::spot(g, t, d)
    &&& {
        ||| geometry::row(s) == geometry::row(t) && forall|i: int|
            #[trigger] technique_laws::spot(g, i, d) && geometry::row(i) == geometry::row(s)
                ==> i == s || i == t
        ||| geometry::col(s) == geometry::col(t) && forall|i: int|
            #[trigger] technique_laws::spot(g, i, d) && geometry::col(i) == geometry::col(s)
                ==> i == s || i == t
        ||| geometry::box_no(s) == geometry::box_no(t) && forall|i: int|
            #[trigger] technique_laws::spot(g, i, d) && geometry::box_no(i) == geometry::box_no(s)
                ==> i == s || i == t
    }
}

/// `s` and `t` are the only two cells of unit `u` that can become `d`.
pub open spec fn is_paired_in(g: Grid, d: u8, u: int, s: int, t: int) -> bool {
    &&& 0 <= u < 27
    &&& s != t
    &&& technique_laws::spot(g, s, d)
    &&& technique_laws::spot(g, t, d)
    &&& geometry::in_unit(u, s)
    &&& geometry::in_unit(u, t)
    &&& forall|i: int| #[trigger]
        technique_laws::spot(g, i, d) && geometry::in_unit(u, i) ==> i == s || i == t
}

/// Two cells are the only ones of a unit for a digit exactly where the list of its spots
/// is made of them.
pub proof fn lemma_two_spots(g: Grid, d: u8, u: int, s: int, t: int)
    requires
        0 <= u < 27,
        0 <= s < 81,
        0 <= t < 81,
    ensures
        is_paired_in(g, d, u, s, t) <==> spots::spots(g, u, d).len() == 2 && ((spots::spots(
            g,
            u,
            d,
        )[0] == s && spots::spots(g, u, d)[1] == t) || (spots::spots(g, u, d)[0] == t
            && spots::spots(g, u, d)[1] == s)),
{
    spots::lemma_spots(g, u, d);
    let l = spots::spots(g, u, d);
    if is_paired_in(g, d, u, s, t) {
        assert(l.contains(s as usize) && l.contains(t as usize));
        let (m, n) = (l.index_of(s as usize), l.index_of(t as usize));
        assert(l[m] == s && l[n] == t);
        assert forall|k: int| 0 <= k < l.len() implies l[k] == s || l[k] == t by {
            assert(technique_laws::spot(g, l[k] as int, d));
        }
        if l.len() > 2 {
            assert(l[0] != l[1] && l[1] != l[2] && l[0] != l[2]);
        }
    }
    if l.len() == 2 {
        assert(grid::open_at(g, l[0] as int, d) && grid::open_at(g, l[1] as int, d));
        assert forall|i: int| #[trigger]
            technique_laws::spot(g, i, d) && geometry::in_unit(u, i) implies i == l[0] || i
            == l[1] by {
            assert(l.contains(i as usize));
        }
    }
}

proof fn lemma_unit_of_pair(g: Grid, d: u8, s: int, t: int) -> (u: int)
    requires
        is_paired(g, d, s, t),
    ensures
        is_paired_in(g, d, u, s, t),
{
    let (r, c, b) = (geometry::row(s), 9 + geometry::col(s), 18 + geometry::box_no(s));
    if geometry::row(s) == geometry::row(t) && forall|i: int|
        #[trigger] technique_laws::spot(g, i, d) && geometry::row(i) == geometry::row(s) ==> i == s
            || i == t {
        assert(is_paired_in(g, d, r, s, t));
        r
    } else if geometry::col(s) == geometry::col(t) && forall|i: int|
        #[trigger] technique_laws::spot(g, i, d) && geometry::col(i) == geometry::col(s) ==> i == s
            || i == t {
        assert(is_paired_in(g, d, c, s, t));
        c
    } else {
        assert(is_paired_in(g, d, b, s, t));
        b
    }
}

proof fn lemma_pair_of_unit(g: Grid, d: u8, u: int, s: int, t: int)
    requires
        is_paired_in(g, d, u, s, t),
    ensures
        is_paired(g, d, s, t),
{
    if u < 9 {
        assert forall|i: int| #[trigger]
            technique_laws::spot(g, i, d) && geometry::row(i) == geometry::row(s) implies i == s || i
            == t by {
            assert(geometry::in_unit(u, i));
        }
    } else if u < 18 {
        assert forall|i: int| #[trigger]
            technique_laws::spot(g, i, d) && geometry::col(i) == geometry::col(s) implies i == s || i
            == t by {
            assert(geometry::in_unit(u, i));
        }
    } else {
        assert forall|i: int| #[trigger]
            technique_laws::spot(g, i, d) && geometry::box_no(i) == geometry::box_no(
                s,
            ) implies i == s || i == t by {
            assert(geometry::in_unit(u, i));
        }
    }
}

proof fn lemma_listed(g: Grid, d: u8, u: int, n: nat) -> (k: int)
    requires
        0 <= u < n,
        spots::spots(g, u, d).len() == 2,
    ensures
        0 <= k < chains::links_below(g, d, n).len(),
        chains::links_below(g, d, n)[k] == (spots::spots(g, u, d)[0], spots::spots(g, u, d)[1]),
    decreases n,
{
    if u == n - 1 {
        chains::links_below(g, d, n).len() - 1
    } else {
        let k = lemma_listed(g, d, u, (n - 1) as nat);
        assert(chains::links_below(g, d, n)[k] == chains::links_below(g, d, (n - 1) as nat)[k]);
        k
    }
}

/// A strong link joins two cells exactly where they are the only two of a row, of a
/// column or of a box that can become the digit.
pub proof fn law_links(g: Grid, d: u8, s: usize, t: usize)
    requires
        s < 81,
        t < 81,
    ensures
        chains::joined(chains::links(g, d), s, t) <==> is_paired(g, d, s as int, t as int),
{
    let ls = chains::links(g, d);
    if chains::joined(ls, s, t) {
        let n = choose|n: int| 0 <= n < ls.len() && (#[trigger] ls[n] == (s, t) || ls[n] == (t, s));
        chains::lemma_links(g, d, 27);
        let u = choose|u: int| #[trigger] chains::is_pair(g, d, u, ls[n]);
        lemma_two_spots(g, d, u, s as int, t as int);
        lemma_pair_of_unit(g, d, u, s as int, t as int);
    }
    if is_paired(g, d, s as int, t as int) {
        let u = lemma_unit_of_pair(g, d, s as int, t as int);
        lemma_two_spots(g, d, u, s as int, t as int);
        let k = lemma_listed(g, d, u, 27);
        assert(ls[k] == (s, t) || ls[k] == (t, s));
    }
}

} // verus!
