//! When single-digit chains have something to say.

use crate::chain_laws;
use crate::chains;
use crate::chains::{Link, Walk};
use crate::geometry;
use crate::grid;
use crate::grid::Grid;
use crate::kites;
use crate::link_laws;
use crate::spots;
use crate::technique_laws;
use vstd::prelude::*;

verus! {

// ---- Chains of strong links ----

/// Cell `k` of the chain and the next are the two places of some unit for `d`.
pub open spec fn turns(g: Grid, d: u8, p: Seq<int>, k: int) -> bool {
    link_laws::is_paired(g, d, p[k], p[k + 1])
}

pub open spec fn is_chain(g: Grid, d: u8, p: Seq<int>) -> bool {
    p.len() > 0 && 0 <= p[0] < 81 && forall|k: int|
        0 <= k < p.len() - 1 ==> #[trigger] turns(g, d, p, k)
}

/// A chain of strong links leads from `a` to `b`, of an odd number of links if `odd`: then
/// one of the two is `d` and the other is not; otherwise both are `d` or neither is.
#[verifier::opaque]
pub open spec fn reach(g: Grid, d: u8, a: int, b: int, odd: bool) -> bool {
    exists|p: Seq<int>| #[trigger]
        is_chain(g, d, p) && p[0] == a && p.last() == b && (p.len() % 2 == 0) == odd
}

proof fn lemma_paired_back(g: Grid, d: u8, s: int, t: int)
    requires
        link_laws::is_paired(g, d, s, t),
    ensures
        link_laws::is_paired(g, d, t, s),
{
}

proof fn lemma_here(g: Grid, d: u8, a: int)
    requires
        0 <= a < 81,
    ensures
        reach(g, d, a, a, false),
{
    reveal(reach);
    assert(is_chain(g, d, seq![a]));
}

proof fn lemma_step_on(g: Grid, d: u8, a: int, b: int, c: int, odd: bool)
    requires
        reach(g, d, a, b, odd),
        link_laws::is_paired(g, d, b, c),
    ensures
        reach(g, d, a, c, !odd),
{
    reveal(reach);
    let p = choose|p: Seq<int>| #[trigger]
        is_chain(g, d, p) && p[0] == a && p.last() == b && (p.len() % 2 == 0) == odd;
    let q = p.push(c);
    assert forall|k: int| 0 <= k < q.len() - 1 implies #[trigger] turns(g, d, q, k) by {
        if k < p.len() - 1 {
            assert(turns(g, d, p, k));
        }
    }
    assert(is_chain(g, d, q));
    assert(q.last() == c);
}

/// Following a chain on from where another ended.
proof fn lemma_follow(g: Grid, d: u8, a: int, p: Seq<int>, n: int, odd: bool)
    requires
        is_chain(g, d, p),
        reach(g, d, a, p[0], odd),
        0 <= n < p.len(),
    ensures
        reach(g, d, a, p[n], odd != (n % 2 == 1)),
    decreases n,
{
    if n > 0 {
        lemma_follow(g, d, a, p, n - 1, odd);
        assert(turns(g, d, p, n - 1));
        lemma_step_on(g, d, a, p[n - 1], p[n], odd != ((n - 1) % 2 == 1));
    }
}

proof fn lemma_join(g: Grid, d: u8, a: int, b: int, c: int, x: bool, y: bool)
    requires
        reach(g, d, a, b, x),
        reach(g, d, b, c, y),
    ensures
        reach(g, d, a, c, x != y),
{
    let p = lemma_chain_of(g, d, b, c, y);
    lemma_follow(g, d, a, p, p.len() - 1, x);
}

proof fn lemma_chain_of(g: Grid, d: u8, b: int, c: int, y: bool) -> (p: Seq<int>)
    requires
        reach(g, d, b, c, y),
    ensures
        is_chain(g, d, p),
        p[0] == b,
        p[p.len() - 1] == c,
        (p.len() % 2 == 0) == y,
{
    reveal(reach);
    choose|p: Seq<int>| #[trigger]
        is_chain(g, d, p) && p[0] == b && p.last() == c && (p.len() % 2 == 0) == y
}

/// The cells of a chain are cells, and can become the digit if there are two or more.
proof fn lemma_on_chain(g: Grid, d: u8, p: Seq<int>, n: int)
    requires
        is_chain(g, d, p),
        0 <= n < p.len(),
    ensures
        0 <= p[n] < 81,
        p.len() > 1 ==> technique_laws::spot(g, p[n], d),
{
    if n > 0 {
        assert(turns(g, d, p, n - 1));
    } else if p.len() > 1 {
        assert(turns(g, d, p, 0));
    }
}

proof fn lemma_back_along(g: Grid, d: u8, p: Seq<int>, n: int)
    requires
        is_chain(g, d, p),
        0 <= n < p.len(),
    ensures
        reach(g, d, p[p.len() - 1], p[n], (p.len() - 1 - n) % 2 == 1),
    decreases p.len() - n,
{
    let z = p[p.len() - 1];
    if n == p.len() - 1 {
        lemma_on_chain(g, d, p, n);
        lemma_here(g, d, z);
    } else {
        lemma_back_along(g, d, p, n + 1);
        assert(turns(g, d, p, n));
        lemma_paired_back(g, d, p[n], p[n + 1]);
        lemma_step_on(g, d, z, p[n + 1], p[n], (p.len() - 2 - n) % 2 == 1);
    }
}

proof fn lemma_back(g: Grid, d: u8, a: int, b: int, odd: bool)
    requires
        reach(g, d, a, b, odd),
    ensures
        reach(g, d, b, a, odd),
{
    let p = lemma_chain_of(g, d, a, b, odd);
    lemma_back_along(g, d, p, 0);
}

proof fn lemma_reach_cells(g: Grid, d: u8, a: int, b: int, odd: bool)
    requires
        reach(g, d, a, b, odd),
    ensures
        0 <= a < 81,
        0 <= b < 81,
        a != b ==> technique_laws::spot(g, a, d) && technique_laws::spot(g, b, d),
        odd ==> technique_laws::spot(g, a, d) && technique_laws::spot(g, b, d),
{
    let p = lemma_chain_of(g, d, a, b, odd);
    lemma_on_chain(g, d, p, 0);
    lemma_on_chain(g, d, p, p.len() - 1);
}

/// A cell is linked to itself and to the cells that chains lead to.
pub open spec fn joins(g: Grid, d: u8, a: int, b: int) -> bool {
    reach(g, d, a, b, true) || reach(g, d, a, b, false)
}

// ---- Colours ----

/// There are two colours.
proof fn lemma_shade(o: Option<bool>)
    ensures
        o is Some ==> o == Some(true) || o == Some(false),
{
    if let Some(b) = o {
        assert(b == true || b == false);
    }
}

/// The cells of a walk have their colours by the chains that lead to them.
proof fn lemma_walk_reach(g: Grid, d: u8, start: usize, n: nat)
    requires
        start < 81,
    ensures
        forall|i: int|
            #![trigger chains::walk(chains::links(g, d), start, n).colour[i]]
            0 <= i < 81 && chains::walk(chains::links(g, d), start, n).colour[i] is Some ==> reach(
                g,
                d,
                start as int,
                i,
                chains::walk(chains::links(g, d), start, n).colour[i] == Some(false),
            ),
    decreases n,
{
    let ls = chains::links(g, d);
    chains::lemma_links(g, d, 27);
    if n == 0 {
        lemma_here(g, d, start as int);
    } else {
        let m = (n - 1) as nat;
        lemma_walk_reach(g, d, start, m);
        chains::lemma_walk(ls, start, m);
        let w = chains::walk(ls, start, m);
        if w.stack.len() > 0 {
            let c = w.stack.last();
            let ns = chains::neighbours(ls, c);
            assert(w.stack[w.stack.len() - 1] == c);
            chains::lemma_neighbours(ls, c);
            lemma_shade(w.colour[c as int]);
            let shade = w.colour[c as int] != Some(true);
            let good = |i: int, s: Option<bool>| reach(g, d, start as int, i, s == Some(false));
            assert(reach(g, d, start as int, c as int, w.colour[c as int] == Some(false)));
            assert forall|k: int| 0 <= k < ns.len() implies #[trigger] ns[k] < 81 && good(
                ns[k] as int,
                Some(shade),
            ) by {
                link_laws::law_links(g, d, c, ns[k]);
                lemma_step_on(
                    g,
                    d,
                    start as int,
                    c as int,
                    ns[k] as int,
                    w.colour[c as int] == Some(false),
                );
            }
            chain_laws::lemma_paint_keeps(
                Walk { stack: w.stack.drop_last(), colour: w.colour },
                ns,
                shade,
                good,
            );
        }
    }
}

/// The colouring of the group of `start`.
spec fn tint(g: Grid, d: u8, start: int) -> Seq<Option<bool>> {
    chains::colours(chains::links(g, d), start as usize)
}

proof fn lemma_tint(g: Grid, d: u8, start: int, i: int)
    requires
        0 <= start < 81,
        0 <= i < 81,
    ensures
        tint(g, d, start).len() == 81,
        tint(g, d, start)[i] is Some ==> reach(g, d, start, i, tint(g, d, start)[i] == Some(false)),
        joins(g, d, start, i) ==> tint(g, d, start)[i] is Some,
{
    chains::lemma_links(g, d, 27);
    chains::lemma_walk(chains::links(g, d), start as usize, 81);
    lemma_walk_reach(g, d, start as usize, 81);
    if reach(g, d, start, i, true) {
        let p = lemma_chain_of(g, d, start, i, true);
        lemma_chain_tinted(g, d, p, p.len() - 1);
    }
    if reach(g, d, start, i, false) {
        let p = lemma_chain_of(g, d, start, i, false);
        lemma_chain_tinted(g, d, p, p.len() - 1);
    }
}

proof fn lemma_chain_tinted(g: Grid, d: u8, p: Seq<int>, n: int)
    requires
        is_chain(g, d, p),
        0 <= n < p.len(),
    ensures
        tint(g, d, p[0])[p[n]] is Some,
    decreases n,
{
    let ls = chains::links(g, d);
    chains::lemma_links(g, d, 27);
    if n == 0 {
        chains::law_groups_are_complete(ls, p[0] as usize, p[0] as usize, p[0] as usize);
    } else {
        lemma_chain_tinted(g, d, p, n - 1);
        assert(turns(g, d, p, n - 1));
        link_laws::law_links(g, d, p[n - 1] as usize, p[n] as usize);
        chains::law_groups_are_complete(ls, p[0] as usize, p[n - 1] as usize, p[n] as usize);
    }
}

/// Cells of one colour are joined by an even chain, cells of different colours by an odd
/// one.
proof fn lemma_two_tints(g: Grid, d: u8, start: int, a: int, b: int)
    requires
        0 <= start < 81,
        0 <= a < 81,
        0 <= b < 81,
        tint(g, d, start)[a] is Some,
        tint(g, d, start)[b] is Some,
    ensures
        reach(g, d, a, b, tint(g, d, start)[a] != tint(g, d, start)[b]),
{
    let c = tint(g, d, start);
    lemma_shade(c[a]);
    lemma_shade(c[b]);
    lemma_tint(g, d, start, a);
    lemma_tint(g, d, start, b);
    lemma_back(g, d, start, a, c[a] == Some(false));
    lemma_join(g, d, a, start, b, c[a] == Some(false), c[b] == Some(false));
}

/// Where no colour is dead, linked cells have different colours.
proof fn lemma_alternates(g: Grid, d: u8, start: int, p: Seq<int>, n: int)
    requires
        0 <= start < 81,
        is_chain(g, d, p),
        0 <= n < p.len(),
        tint(g, d, start)[p[0]] is Some,
        !chains::dead(tint(g, d, start), true),
        !chains::dead(tint(g, d, start), false),
    ensures
        tint(g, d, start)[p[n]] is Some,
        tint(g, d, start)[p[n]] != tint(g, d, start)[p[0]] <==> n % 2 == 1,
    decreases n,
{
    let c = tint(g, d, start);
    if n > 0 {
        lemma_alternates(g, d, start, p, n - 1);
        assert(turns(g, d, p, n - 1));
        let (a, b) = (p[n - 1], p[n]);
        chains::lemma_links(g, d, 27);
        link_laws::law_links(g, d, a as usize, b as usize);
        chains::law_groups_are_complete(
            chains::links(g, d),
            start as usize,
            a as usize,
            b as usize,
        );
        lemma_shade(c[p[0]]);
        lemma_shade(c[a]);
        lemma_shade(c[b]);
        lemma_tint(g, d, start, a);
        assert(geometry::peer(a, b));
        assert(!(c[a] == Some(true) && c[b] == Some(true)));
        assert(!(c[a] == Some(false) && c[b] == Some(false)));
    }
}

proof fn lemma_sides(g: Grid, d: u8, start: int, a: int, b: int, odd: bool)
    requires
        0 <= start < 81,
        reach(g, d, a, b, odd),
        tint(g, d, start)[a] is Some,
        !chains::dead(tint(g, d, start), true),
        !chains::dead(tint(g, d, start), false),
    ensures
        tint(g, d, start)[b] is Some,
        tint(g, d, start)[a] != tint(g, d, start)[b] <==> odd,
{
    let p = lemma_chain_of(g, d, a, b, odd);
    lemma_alternates(g, d, start, p, p.len() - 1);
}

// ---- Groups ----

/// The cells that have a colour.
proof fn lemma_coloured_count(c: Seq<Option<bool>>)
    ensures
        Set::new(|i: int| 0 <= i < c.len() && c[i] is Some).finite(),
        Set::new(|i: int| 0 <= i < c.len() && c[i] is Some).len() == chains::coloured(c),
    decreases c.len(),
{
    let s = Set::new(|i: int| 0 <= i < c.len() && c[i] is Some);
    if c.len() == 0 {
        assert(s =~= Set::<int>::empty());
    } else {
        let t = c.drop_last();
        lemma_coloured_count(t);
        let r = Set::new(|i: int| 0 <= i < t.len() && t[i] is Some);
        if c.last() is Some {
            assert(s =~= r.insert(c.len() - 1));
        } else {
            assert(s =~= r);
        }
    }
}

/// Three cells have a colour exactly where three different ones can be named.
proof fn lemma_three(c: Seq<Option<bool>>, a: int, b: int)
    requires
        c.len() == 81,
        0 <= a < 81,
        0 <= b < 81,
        a != b,
        c[a] is Some,
        c[b] is Some,
    ensures
        chains::coloured(c) >= 3 <==> exists|i: int|
            #![trigger c[i]]
            0 <= i < 81 && c[i] is Some && i != a && i != b,
{
    lemma_coloured_count(c);
    let s = Set::new(|i: int| 0 <= i < c.len() && c[i] is Some);
    let r = s.remove(a).remove(b);
    assert(s.contains(a) && s.remove(a).contains(b));
    assert(r.len() + 2 == s.len());
    if s.len() >= 3 {
        let i = r.choose();
        assert(r.contains(i));
        assert(c[i] is Some && i != a && i != b);
    }
    if exists|i: int| #![trigger c[i]] 0 <= i < 81 && c[i] is Some && i != a && i != b {
        let i = choose|i: int| #![trigger c[i]] 0 <= i < 81 && c[i] is Some && i != a && i != b;
        assert(r.contains(i));
        if r.len() == 0 {
            assert(r =~= Set::<int>::empty());
        }
    }
}

/// Every node belongs to the group of some root.
proof fn lemma_visited(ls: Seq<Link>, n: nat, i: int) -> (s: int)
    requires
        chains::on_board(ls),
        n <= 81,
        chains::visited(ls, n).contains(i),
    ensures
        0 <= s < n,
        chains::is_root(ls, s),
        0 <= i < 81,
        chains::colours(ls, s as usize)[i] is Some,
    decreases n,
{
    if n == 0 {
        0
    } else {
        let m = (n - 1) as nat;
        if chains::visited(ls, m).contains(i) {
            lemma_visited(ls, m, i)
        } else {
            n - 1
        }
    }
}

proof fn lemma_root_of(g: Grid, d: u8, a: int, b: int) -> (s: int)
    requires
        link_laws::is_paired(g, d, a, b),
    ensures
        0 <= s < 81,
        chains::is_root(chains::links(g, d), s),
        tint(g, d, s)[a] is Some,
{
    let ls = chains::links(g, d);
    chains::lemma_links(g, d, 27);
    let (x, y) = (a as usize, b as usize);
    link_laws::law_links(g, d, x, y);
    let n = choose|n: int| 0 <= n < ls.len() && (#[trigger] ls[n] == (x, y) || ls[n] == (y, x));
    assert(chains::is_node(ls, x));
    if chains::visited(ls, a as nat).contains(a) {
        lemma_visited(ls, a as nat, a)
    } else {
        chains::law_groups_are_complete(ls, x, x, x);
        a
    }
}

/// A root can become the digit.
proof fn lemma_root_spot(g: Grid, d: u8, s: int) -> (t: int)
    requires
        0 <= s < 81,
        chains::is_root(chains::links(g, d), s),
    ensures
        link_laws::is_paired(g, d, s, t),
{
    let ls = chains::links(g, d);
    chains::lemma_links(g, d, 27);
    let k = choose|k: int|
        0 <= k < ls.len() && ((#[trigger] ls[k]).0 == s as usize || ls[k].1 == s as usize);
    let t = if ls[k].0 == s as usize {
        ls[k].1
    } else {
        ls[k].0
    };
    assert(ls[k] == (s as usize, t) || ls[k] == (t, s as usize));
    assert(chains::joined(ls, s as usize, t));
    link_laws::law_links(g, d, s as usize, t);
    t as int
}

/// What has a colour in the group of a root can become the digit.
proof fn lemma_tinted_spot(g: Grid, d: u8, s: int, i: int)
    requires
        0 <= s < 81,
        0 <= i < 81,
        chains::is_root(chains::links(g, d), s),
        tint(g, d, s)[i] is Some,
    ensures
        technique_laws::spot(g, i, d),
{
    lemma_tint(g, d, s, i);
    let t = lemma_root_spot(g, d, s);
    lemma_reach_cells(g, d, s, i, tint(g, d, s)[i] == Some(false));
}

/// A group of three cells has two links.
proof fn lemma_enough_links(g: Grid, d: u8, a: int, b: int, c: int, x: bool, y: bool)
    requires
        reach(g, d, a, b, x),
        reach(g, d, a, c, y),
        a != b,
        a != c,
        b != c,
    ensures
        chains::links(g, d).len() >= 2,
{
    let ls = chains::links(g, d);
    if ls.len() < 2 {
        let p = lemma_chain_of(g, d, a, b, x);
        let q = lemma_chain_of(g, d, a, c, y);
        lemma_one_link(g, d, p, p.len() - 1);
        lemma_one_link(g, d, q, q.len() - 1);
        lemma_one_link(g, d, p, 0);
        assert(turns(g, d, p, 0));
        link_laws::law_links(g, d, p[0] as usize, p[1] as usize);
    }
}

proof fn lemma_one_link(g: Grid, d: u8, p: Seq<int>, n: int)
    requires
        is_chain(g, d, p),
        p.len() > 1,
        0 <= n < p.len(),
        chains::links(g, d).len() < 2,
    ensures
        chains::links(g, d).len() == 1,
        p[n] == chains::links(g, d)[0].0 || p[n] == chains::links(g, d)[0].1,
{
    let ls = chains::links(g, d);
    let m = if n > 0 {
        n - 1
    } else {
        0
    };
    assert(turns(g, d, p, m));
    let (s, t) = (p[m] as usize, p[m + 1] as usize);
    link_laws::law_links(g, d, s, t);
    let k = choose|k: int| 0 <= k < ls.len() && (#[trigger] ls[k] == (s, t) || ls[k] == (t, s));
    assert(k == 0);
}

// ---- Patterns ----

/// `j`, `a` and `b` are all `d` or all not, and `a` and `b` see each other.
pub open spec fn is_wrapped(g: Grid, d: u8, j: int, a: int, b: int) -> bool {
    reach(g, d, j, a, false) && reach(g, d, a, b, false) && geometry::shares(a, b)
}

/// One of `a` and `b`, which are linked with a third cell `c`, is `d`; and `j` sees them
/// both.
pub open spec fn is_trapped(g: Grid, d: u8, j: int, a: int, b: int, c: int) -> bool {
    &&& reach(g, d, a, b, true)
    &&& joins(g, d, a, c)
    &&& a != b
    &&& c != a
    &&& c != b
    &&& geometry::shares(a, j)
    &&& geometry::shares(b, j)
}

/// `a` and `b` are the only two cells of their row that can become `d`.
pub open spec fn row_pair(g: Grid, d: u8, a: int, b: int) -> bool {
    &&& a != b
    &&& technique_laws::spot(g, a, d)
    &&& technique_laws::spot(g, b, d)
    &&& geometry::row(a) == geometry::row(b)
    &&& forall|i: int| #[trigger]
        technique_laws::spot(g, i, d) && geometry::row(i) == geometry::row(a) ==> i == a || i == b
}

/// `a` and `b` are the only two cells of their column that can become `d`.
pub open spec fn col_pair(g: Grid, d: u8, a: int, b: int) -> bool {
    &&& a != b
    &&& technique_laws::spot(g, a, d)
    &&& technique_laws::spot(g, b, d)
    &&& geometry::col(a) == geometry::col(b)
    &&& forall|i: int| #[trigger]
        technique_laws::spot(g, i, d) && geometry::col(i) == geometry::col(a) ==> i == a || i == b
}

/// Skyscraper: of two rows with two places each, one place of each is in the same column,
/// the others are in different columns, and `j` sees these; or the same with rows and
/// columns exchanged.
pub open spec fn is_skyscraper(g: Grid, d: u8, j: int, a: int, b: int, c: int, e: int) -> bool {
    &&& geometry::shares(a, j)
    &&& geometry::shares(e, j)
    &&& {
        ||| row_pair(g, d, a, b) && row_pair(g, d, c, e) && geometry::row(b) != geometry::row(c)
            && geometry::col(b) == geometry::col(c) && geometry::col(a) != geometry::col(e)
        ||| col_pair(g, d, a, b) && col_pair(g, d, c, e) && geometry::col(b) != geometry::col(c)
            && geometry::row(b) == geometry::row(c) && geometry::row(a) != geometry::row(e)
    }
}

/// Two-String Kite: a row and a column with two places each have one place each in the
/// same box, the others outside it, and `j` sees these.
pub open spec fn is_kite(g: Grid, d: u8, j: int, a: int, b: int, c: int, e: int) -> bool {
    &&& geometry::shares(a, j)
    &&& geometry::shares(e, j)
    &&& row_pair(g, d, a, b)
    &&& col_pair(g, d, c, e)
    &&& b != c
    &&& geometry::box_no(b) == geometry::box_no(c)
    &&& geometry::box_no(a) != geometry::box_no(b)
    &&& geometry::box_no(e) != geometry::box_no(c)
}

/// A chain of strong links rules `d` out in cell `j`.
pub open spec fn is_coloured_out(g: Grid, d: u8, j: int) -> bool {
    ||| exists|a: int, b: int| #[trigger] is_wrapped(g, d, j, a, b)
    ||| exists|a: int, b: int, c: int| #[trigger] is_trapped(g, d, j, a, b, c)
}

/// Two strings rule `d` out in cell `j`.
pub open spec fn is_strung_out(g: Grid, d: u8, j: int) -> bool {
    ||| exists|a: int, b: int, c: int, e: int| #[trigger] is_skyscraper(g, d, j, a, b, c, e)
    ||| exists|a: int, b: int, c: int, e: int| #[trigger] is_kite(g, d, j, a, b, c, e)
}

/// Single-digit chains have a reason to rule `d` out in cell `j`.
pub open spec fn is_chained_out(g: Grid, d: u8, j: int) -> bool {
    is_coloured_out(g, d, j) || is_strung_out(g, d, j)
}

// ---- What the colours hit ----

proof fn lemma_hit_reason(g: Grid, d: u8, s: int, j: int)
    requires
        0 <= s < 81,
        0 <= j < 81,
        chains::is_root(chains::links(g, d), s),
        chains::chain_hits(tint(g, d, s), j),
    ensures
        is_coloured_out(g, d, j),
{
    let c = tint(g, d, s);
    lemma_tint(g, d, s, s);
    if chains::dead(c, true) || chains::dead(c, false) {
        let shade = c[j] == Some(true);
        let (a, b) = choose|a: int, b: int|
            #![trigger geometry::peer(a, b)]
            0 <= a < 81 && 0 <= b < 81 && c[a] == Some(shade) && c[b] == Some(shade)
                && geometry::peer(a, b);
        lemma_two_tints(g, d, s, j, a);
        lemma_two_tints(g, d, s, a, b);
        geometry::law_peers_share(a, b);
        assert(is_wrapped(g, d, j, a, b));
    } else {
        let a = choose|a: int| 0 <= a < 81 && c[a] == Some(true) && #[trigger] geometry::peer(j, a);
        let b = choose|b: int| 0 <= b < 81 && c[b] == Some(false) && #[trigger] geometry::peer(j, b);
        lemma_two_tints(g, d, s, a, b);
        lemma_three(c, a, b);
        let i = choose|i: int| #![trigger c[i]] 0 <= i < 81 && c[i] is Some && i != a && i != b;
        lemma_two_tints(g, d, s, a, i);
        geometry::law_peers_share(j, a);
        geometry::law_peers_share(j, b);
        assert(is_trapped(g, d, j, a, b, i));
    }
}

/// A dead colour hits some cell that can become the digit.
proof fn lemma_dead_hits(g: Grid, d: u8, s: int) -> (j: int)
    requires
        0 <= s < 81,
        chains::is_root(chains::links(g, d), s),
        chains::coloured(tint(g, d, s)) >= 3,
        chains::dead(tint(g, d, s), true) || chains::dead(tint(g, d, s), false),
    ensures
        0 <= j < 81,
        technique_laws::spot(g, j, d),
        chains::chain_hits(tint(g, d, s), j),
{
    let c = tint(g, d, s);
    let shade = chains::dead(c, true);
    let (a, b) = choose|a: int, b: int|
        #![trigger geometry::peer(a, b)]
        0 <= a < 81 && 0 <= b < 81 && c[a] == Some(shade) && c[b] == Some(shade) && geometry::peer(
            a,
            b,
        );
    lemma_tinted_spot(g, d, s, a);
    a
}

/// The first link of a chain between two cells.
proof fn lemma_first_link(g: Grid, d: u8, a: int, b: int, odd: bool) -> (t: int)
    requires
        reach(g, d, a, b, odd),
        a != b,
    ensures
        link_laws::is_paired(g, d, a, t),
{
    let p = lemma_chain_of(g, d, a, b, odd);
    assert(turns(g, d, p, 0));
    p[1]
}

/// The group of a wrapped cell: its root, and a dead colour in it.
proof fn lemma_wrapped(g: Grid, d: u8, j: int, a: int, b: int) -> (s: int)
    requires
        is_wrapped(g, d, j, a, b),
    ensures
        0 <= s < 81,
        0 <= j < 81,
        chains::is_root(chains::links(g, d), s),
        chains::coloured(tint(g, d, s)) >= 3,
        chains::dead(tint(g, d, s), true) || chains::dead(tint(g, d, s), false),
        tint(g, d, s)[j] is Some,
        tint(g, d, s)[a] is Some,
        tint(g, d, s)[b] is Some,
        chains::links(g, d).len() >= 2,
{
    lemma_reach_cells(g, d, j, a, false);
    lemma_reach_cells(g, d, a, b, false);
    let t = lemma_first_link(g, d, a, b, false);
    let s = lemma_root_of(g, d, a, t);
    let c = tint(g, d, s);
    lemma_tint(g, d, s, a);
    let x = c[a] == Some(false);
    lemma_join(g, d, s, a, b, x, false);
    lemma_back(g, d, j, a, false);
    lemma_join(g, d, s, a, j, x, false);
    lemma_tint(g, d, s, b);
    lemma_tint(g, d, s, j);
    geometry::law_peers_share(a, b);
    if !chains::dead(c, true) && !chains::dead(c, false) {
        lemma_sides(g, d, s, a, b, false);
        lemma_shade(c[a]);
        assert(geometry::peer(a, b));
    }
    // The chain from `a` to `b` has a second cell that is neither.
    let p = lemma_chain_of(g, d, a, b, false);
    lemma_third(g, d, s, p, a, b);
    s
}

/// A chain of an even number of links between two cells has a third cell in its group.
proof fn lemma_third(g: Grid, d: u8, s: int, p: Seq<int>, a: int, b: int)
    requires
        0 <= s < 81,
        0 <= a < 81,
        0 <= b < 81,
        is_chain(g, d, p),
        p[0] == a,
        p[p.len() - 1] == b,
        p.len() % 2 == 1,
        a != b,
        tint(g, d, s)[a] is Some,
        tint(g, d, s)[b] is Some,
    ensures
        chains::coloured(tint(g, d, s)) >= 3,
        chains::links(g, d).len() >= 2,
{
    let c = tint(g, d, s);
    lemma_tint(g, d, s, a);
    let k = lemma_other_cell(g, d, p, a, b);
    lemma_on_chain(g, d, p, k);
    lemma_here(g, d, a);
    lemma_follow(g, d, a, p, k, false);
    lemma_follow(g, d, a, p, p.len() - 1, false);
    lemma_join(g, d, s, a, p[k], c[a] == Some(false), k % 2 == 1);
    lemma_tint(g, d, s, p[k]);
    assert(c[p[k]] is Some);
    lemma_three(c, a, b);
    lemma_enough_links(g, d, a, b, p[k], false, k % 2 == 1);
}

/// A chain that takes turns between two cells only is at the first of them after every
/// even number of links.
proof fn lemma_other_cell(g: Grid, d: u8, p: Seq<int>, a: int, b: int) -> (k: int)
    requires
        is_chain(g, d, p),
        p[0] == a,
        p[p.len() - 1] == b,
        p.len() % 2 == 1,
        a != b,
    ensures
        0 <= k < p.len(),
        p[k] != a,
        p[k] != b,
{
    if forall|k: int| 0 <= k < p.len() ==> #[trigger] p[k] == a || p[k] == b {
        lemma_turns(g, d, p, a, b, p.len() - 1);
    }
    choose|k: int| 0 <= k < p.len() && #[trigger] p[k] != a && p[k] != b
}

proof fn lemma_turns(g: Grid, d: u8, p: Seq<int>, a: int, b: int, n: int)
    requires
        is_chain(g, d, p),
        p[0] == a,
        a != b,
        forall|k: int| 0 <= k < p.len() ==> #[trigger] p[k] == a || p[k] == b,
        0 <= n < p.len(),
    ensures
        p[n] == a <==> n % 2 == 0,
    decreases n,
{
    if n > 0 {
        lemma_turns(g, d, p, a, b, n - 1);
        assert(turns(g, d, p, n - 1));
        assert(p[n] != p[n - 1]);
    }
}

/// The group of the cells that trap another.
proof fn lemma_trap(g: Grid, d: u8, j: int, a: int, b: int, c: int) -> (s: int)
    requires
        is_trapped(g, d, j, a, b, c),
        0 <= j < 81,
    ensures
        0 <= s < 81,
        chains::is_root(chains::links(g, d), s),
        chains::coloured(tint(g, d, s)) >= 3,
        tint(g, d, s)[a] is Some,
        tint(g, d, s)[b] is Some,
        chains::links(g, d).len() >= 2,
        !chains::dead(tint(g, d, s), true) && !chains::dead(tint(g, d, s), false)
            ==> chains::chain_hits(tint(g, d, s), j),
{
    lemma_reach_cells(g, d, a, b, true);
    let y = reach(g, d, a, c, true);
    lemma_reach_cells(g, d, a, c, y);
    let t = lemma_first_link(g, d, a, b, true);
    let s = lemma_root_of(g, d, a, t);
    let k = tint(g, d, s);
    lemma_tint(g, d, s, a);
    let x = k[a] == Some(false);
    lemma_join(g, d, s, a, b, x, true);
    lemma_join(g, d, s, a, c, x, y);
    lemma_tint(g, d, s, b);
    lemma_tint(g, d, s, c);
    assert(k[c] is Some);
    lemma_three(k, a, b);
    lemma_enough_links(g, d, a, b, c, true, y);
    geometry::law_peers_share(j, a);
    geometry::law_peers_share(a, j);
    geometry::law_peers_share(j, b);
    geometry::law_peers_share(b, j);
    if !chains::dead(k, true) && !chains::dead(k, false) {
        lemma_sides(g, d, s, a, b, true);
        lemma_shade(k[a]);
        lemma_shade(k[b]);
        lemma_shade(k[j]);
        assert(geometry::peer(j, a) && geometry::peer(j, b));
        assert(k[j] is None) by {
            if k[j] is Some {
                assert(k[j] == k[a] || k[j] == k[b]);
            }
        }
        assert(chains::sees(k, true, j) && chains::sees(k, false, j));
    }
    s
}

// ---- What the strings hit ----

proof fn lemma_row_pair(g: Grid, d: u8, a: int, b: int)
    requires
        0 <= a < 81,
        0 <= b < 81,
        geometry::row(a) == geometry::row(b),
    ensures
        row_pair(g, d, a, b) <==> kites::is_string(
            g,
            d,
            geometry::row(a),
            a as usize,
            b as usize,
        ),
        row_pair(g, d, a, b) ==> spots::spots(g, geometry::row(a), d).len() == 2,
{
    let u = geometry::row(a);
    link_laws::lemma_two_spots(g, d, u, a, b);
    if row_pair(g, d, a, b) {
        assert forall|i: int| #[trigger]
            technique_laws::spot(g, i, d) && geometry::in_unit(u, i) implies i == a || i == b by {}
        assert(link_laws::is_paired_in(g, d, u, a, b));
    }
    if link_laws::is_paired_in(g, d, u, a, b) {
        assert forall|i: int| #[trigger]
            technique_laws::spot(g, i, d) && geometry::row(i) == geometry::row(a) implies i == a || i
            == b by {
            assert(geometry::in_unit(u, i));
        }
    }
}

proof fn lemma_col_pair(g: Grid, d: u8, a: int, b: int)
    requires
        0 <= a < 81,
        0 <= b < 81,
        geometry::col(a) == geometry::col(b),
    ensures
        col_pair(g, d, a, b) <==> kites::is_string(
            g,
            d,
            9 + geometry::col(a),
            a as usize,
            b as usize,
        ),
        col_pair(g, d, a, b) ==> spots::spots(g, 9 + geometry::col(a), d).len() == 2,
{
    let u = 9 + geometry::col(a);
    link_laws::lemma_two_spots(g, d, u, a, b);
    if col_pair(g, d, a, b) {
        assert forall|i: int| #[trigger]
            technique_laws::spot(g, i, d) && geometry::in_unit(u, i) implies i == a || i == b by {}
        assert(link_laws::is_paired_in(g, d, u, a, b));
    }
    if link_laws::is_paired_in(g, d, u, a, b) {
        assert forall|i: int| #[trigger]
            technique_laws::spot(g, i, d) && geometry::col(i) == geometry::col(a) implies i == a || i
            == b by {
            assert(geometry::in_unit(u, i));
        }
    }
}

/// The two places of a line.
proof fn lemma_line_pair(g: Grid, d: u8, u: int, a: usize, b: usize)
    requires
        0 <= u < 18,
        a < 81,
        b < 81,
        kites::is_string(g, d, u, a, b),
    ensures
        u < 9 ==> row_pair(g, d, a as int, b as int) && geometry::row(a as int) == u,
        u >= 9 ==> col_pair(g, d, a as int, b as int) && geometry::col(a as int) == u - 9,
{
    link_laws::lemma_two_spots(g, d, u, a as int, b as int);
    assert(link_laws::is_paired_in(g, d, u, a as int, b as int));
    if u < 9 {
        lemma_row_pair(g, d, a as int, b as int);
    } else {
        lemma_col_pair(g, d, a as int, b as int);
    }
}

proof fn lemma_caught(
    g: Grid,
    d: u8,
    u: int,
    v: int,
    a: usize,
    b: usize,
    c: usize,
    e: usize,
    j: int,
)
    requires
        0 <= u < 18,
        0 <= v < 18,
        a < 81,
        b < 81,
        c < 81,
        e < 81,
        0 <= j < 81,
        kites::is_string(g, d, u, a, b),
        kites::is_string(g, d, v, c, e),
        kites::is_caught(u, v, a, b, c, e, j),
    ensures
        is_strung_out(g, d, j),
{
    let (p, q, r, s) = (a as int, b as int, c as int, e as int);
    lemma_line_pair(g, d, u, a, b);
    lemma_line_pair(g, d, v, c, e);
    geometry::law_peers_share(j, p);
    geometry::law_peers_share(j, s);
    if kites::is_skyscraper(u, v, p, q, r, s) {
        assert(is_skyscraper(g, d, j, p, q, r, s));
    } else {
        assert(is_kite(g, d, j, p, q, r, s));
    }
}

proof fn lemma_string_cells(g: Grid, d: u8, u: int)
    requires
        0 <= u < 18,
    ensures
        kites::string_of(g, d, u) matches Some(l) ==> l.0 < 81 && l.1 < 81,
{
    spots::lemma_spots(g, u, d);
    let l = spots::spots(g, u, d);
    if l.len() == 2 {
        assert(l[0] < 81 && l[1] < 81);
    }
}

/// The strings hit exactly what a Skyscraper or a Two-String Kite rules out.
proof fn lemma_strung(g: Grid, d: u8, j: int)
    requires
        0 <= j < 81,
    ensures
        kites::some_hit(g, d, 18, j) <==> is_strung_out(g, d, j),
        is_strung_out(g, d, j) ==> chains::links(g, d).len() >= 2,
{
    if kites::some_hit(g, d, 18, j) {
        let u = choose|u: int| 0 <= u < 18 && #[trigger] kites::line_hits(g, d, u, 18, j);
        let v = choose|v: int| 0 <= v < 18 && #[trigger] kites::lines_hit(g, d, u, v, j);
        let l = kites::string_of(g, d, u)->0;
        let k = kites::string_of(g, d, v)->0;
        lemma_string_cells(g, d, u);
        lemma_string_cells(g, d, v);
        if kites::is_caught(u, v, l.0, l.1, k.0, k.1, j) {
            lemma_caught(g, d, u, v, l.0, l.1, k.0, k.1, j);
        } else if kites::is_caught(u, v, l.0, l.1, k.1, k.0, j) {
            lemma_caught(g, d, u, v, l.0, l.1, k.1, k.0, j);
        } else if kites::is_caught(u, v, l.1, l.0, k.0, k.1, j) {
            lemma_caught(g, d, u, v, l.1, l.0, k.0, k.1, j);
        } else {
            lemma_caught(g, d, u, v, l.1, l.0, k.1, k.0, j);
        }
    }
    if exists|a: int, b: int, c: int, e: int| #[trigger] is_skyscraper(g, d, j, a, b, c, e) {
        let (a, b, c, e) = choose|a: int, b: int, c: int, e: int| #[trigger]
            is_skyscraper(g, d, j, a, b, c, e);
        if row_pair(g, d, a, b) && row_pair(g, d, c, e) && geometry::row(b) != geometry::row(c)
            && geometry::col(b) == geometry::col(c) && geometry::col(a) != geometry::col(e) {
            lemma_row_pair(g, d, a, b);
            lemma_row_pair(g, d, c, e);
            lemma_strings_hit(g, d, j, geometry::row(a), geometry::row(c), a, b, c, e);
        } else {
            lemma_col_pair(g, d, a, b);
            lemma_col_pair(g, d, c, e);
            lemma_strings_hit(g, d, j, 9 + geometry::col(a), 9 + geometry::col(c), a, b, c, e);
        }
    }
    if exists|a: int, b: int, c: int, e: int| #[trigger] is_kite(g, d, j, a, b, c, e) {
        let (a, b, c, e) = choose|a: int, b: int, c: int, e: int| #[trigger]
            is_kite(g, d, j, a, b, c, e);
        lemma_row_pair(g, d, a, b);
        lemma_col_pair(g, d, c, e);
        lemma_strings_hit(g, d, j, geometry::row(a), 9 + geometry::col(c), a, b, c, e);
    }
}

proof fn lemma_strings_hit(
    g: Grid,
    d: u8,
    j: int,
    u: int,
    v: int,
    a: int,
    b: int,
    c: int,
    e: int,
)
    requires
        0 <= u < 18,
        0 <= v < 18,
        u != v,
        0 <= j < 81,
        0 <= a < 81,
        0 <= b < 81,
        0 <= c < 81,
        0 <= e < 81,
        kites::is_string(g, d, u, a as usize, b as usize),
        kites::is_string(g, d, v, c as usize, e as usize),
        kites::is_skyscraper(u, v, a, b, c, e) || kites::is_kite(u, v, a, b, c, e),
        geometry::shares(a, j),
        geometry::shares(e, j),
    ensures
        kites::some_hit(g, d, 18, j),
        chains::links(g, d).len() >= 2,
{
    geometry::law_peers_share(a, j);
    geometry::law_peers_share(j, a);
    geometry::law_peers_share(e, j);
    geometry::law_peers_share(j, e);
    assert(kites::is_caught(u, v, a as usize, b as usize, c as usize, e as usize, j));
    assert(kites::lines_hit(g, d, u, v, j));
    assert(kites::line_hits(g, d, u, 18, j));
    chains::lemma_two_links(g, d, u, v);
}

// ---- The technique ----

/// The digits are looked at one by one, and what is done for one leaves the others alone.
proof fn lemma_apart(g: Grid, d: u8, n: nat)
    requires
        grid::wf(g),
        1 <= d <= 9,
        n <= 9,
    ensures
        grid::wf(grid::sweep(g, n, chains::chain_step())),
        grid::sweep(g, n, chains::chain_step()).cells == g.cells,
        n < d ==> chains::same_for(g, grid::sweep(g, n, chains::chain_step()), d),
        n >= d ==> forall|j: int|
            0 <= j < 81 ==> #[trigger] grid::sweep(
                g,
                n,
                chains::chain_step(),
            ).cands[j].contains(d) == chains::chain_at(
                grid::sweep(g, (d - 1) as nat, chains::chain_step()),
                d,
            ).cands[j].contains(d),
    decreases n,
{
    if n > 0 {
        lemma_apart(g, d, (n - 1) as nat);
        let before = grid::sweep(g, (n - 1) as nat, chains::chain_step());
        chains::lemma_chain_at(before, n as u8);
        assert(grid::sweep(g, n, chains::chain_step()) == chains::chain_at(before, n as u8));
    }
}

/// What becomes of a candidate.
proof fn lemma_outcome(g: Grid, d: u8, j: int)
    requires
        grid::wf(g),
        1 <= d <= 9,
        0 <= j < 81,
    ensures
        chains::single_digit_chains(g).cands[j].contains(d) <==> g.cands[j].contains(d) && !(
        chains::links(g, d).len() >= 2 && (chains::chain_gone(chains::links(g, d), d, 81)(j, d)
            || kites::some_hit(g, d, 18, j))),
{
    let h = grid::sweep(g, (d - 1) as nat, chains::chain_step());
    lemma_apart(g, d, (d - 1) as nat);
    lemma_apart(g, d, 9);
    chains::lemma_same_links(g, h, d, 27);
    assert(chains::same_for(h, g, d));
    kites::lemma_same_hits(g, h, d, j);
    kites::lemma_same_hits(h, g, d, j);
    assert(chains::single_digit_chains(g).cands[j].contains(d) == chains::chain_at(
        h,
        d,
    ).cands[j].contains(d));
}

/// The root of a group with three cells and no dead colour, or with one, makes the digit
/// go from the cells that the group hits.
proof fn lemma_root_strikes(g: Grid, d: u8, s: int, j: int)
    requires
        grid::wf(g),
        1 <= d <= 9,
        0 <= j < 81,
        0 <= s < 81,
        chains::links(g, d).len() >= 2,
        chains::is_root(chains::links(g, d), s),
        chains::chain_hits(tint(g, d, s), j),
    ensures
        !chains::single_digit_chains(g).cands[j].contains(d),
{
    lemma_outcome(g, d, j);
    assert(chains::chain_gone(chains::links(g, d), d, 81)(j, d));
}

/// Single-digit chains strike a candidate only because a chain of strong links or two
/// strings rule it out in the grid as it is, and place nothing. They make progress exactly
/// where some candidate is ruled out.
pub proof fn law_single_digit_chains(g: Grid)
    requires
        grid::wf(g),
    ensures
        chains::single_digit_chains(g).cells == g.cells,
        forall|j: int, d: u8|
            0 <= j < 81 && #[trigger] grid::struck(g, chains::single_digit_chains(g), j, d)
                ==> is_chained_out(g, d, j),
        chains::single_digit_chains(g) != g <==> exists|j: int, d: u8|
            0 <= j < 81 && g.cands[j].contains(d) && #[trigger] is_chained_out(g, d, j),
{
    let end = chains::single_digit_chains(g);
    chains::lemma_single_digit_chains(g);
    lemma_apart(g, 1, 9);
    assert forall|j: int, d: u8| 0 <= j < 81 && #[trigger] grid::struck(g, end, j, d) implies is_chained_out(
        g,
        d,
        j,
    ) by {
        lemma_outcome(g, d, j);
        let ls = chains::links(g, d);
        if chains::chain_gone(ls, d, 81)(j, d) {
            let s = choose|s: int|
                0 <= s < 81 && #[trigger] chains::is_root(ls, s) && chains::chain_hits(
                    chains::colours(ls, s as usize),
                    j,
                );
            lemma_hit_reason(g, d, s, j);
        } else {
            lemma_strung(g, d, j);
        }
    }
    if end != g {
        let (j, d) = grid::lemma_some_struck(g, end);
        assert(is_chained_out(g, d, j));
    }
    assert forall|j: int, d: u8|
        0 <= j < 81 && g.cands[j].contains(d) && #[trigger] is_chained_out(g, d, j) implies end
        != g by {
        lemma_progress(g, d, j);
    }
}

proof fn lemma_progress(g: Grid, d: u8, j: int)
    requires
        grid::wf(g),
        0 <= j < 81,
        g.cands[j].contains(d),
        is_chained_out(g, d, j),
    ensures
        chains::single_digit_chains(g) != g,
{
    let end = chains::single_digit_chains(g);
    if is_strung_out(g, d, j) {
        lemma_strung(g, d, j);
        lemma_outcome(g, d, j);
        assert(!end.cands[j].contains(d));
    } else if exists|a: int, b: int| #[trigger] is_wrapped(g, d, j, a, b) {
        let (a, b) = choose|a: int, b: int| #[trigger] is_wrapped(g, d, j, a, b);
        let s = lemma_wrapped(g, d, j, a, b);
        let i = lemma_dead_hits(g, d, s);
        lemma_root_strikes(g, d, s, i);
        assert(g.cands[i].contains(d) && !end.cands[i].contains(d));
    } else {
        let (a, b, c) = choose|a: int, b: int, c: int| #[trigger] is_trapped(g, d, j, a, b, c);
        let s = lemma_trap(g, d, j, a, b, c);
        let t = tint(g, d, s);
        if chains::dead(t, true) || chains::dead(t, false) {
            let i = lemma_dead_hits(g, d, s);
            lemma_root_strikes(g, d, s, i);
            assert(g.cands[i].contains(d) && !end.cands[i].contains(d));
        } else {
            lemma_root_strikes(g, d, s, j);
            assert(!end.cands[j].contains(d));
        }
    }
}

/// No cell is linked to `a` by an even chain and by an odd one.
pub open spec fn has_two_sides(g: Grid, d: u8, a: int) -> bool {
    forall|x: int| #![trigger reach(g, d, a, x, true)]
        !(reach(g, d, a, x, true) && reach(g, d, a, x, false))
}

/// Two cells of one side that see each other cannot be `d`, and so no cell of that side
/// keeps `d`.
pub proof fn law_wrapped_side_goes(g: Grid, d: u8, j: int, a: int, b: int)
    requires
        grid::wf(g),
        1 <= d <= 9,
        is_wrapped(g, d, j, a, b),
        has_two_sides(g, d, j),
    ensures
        !chains::single_digit_chains(g).cands[j].contains(d),
{
    let s = lemma_wrapped(g, d, j, a, b);
    let c = tint(g, d, s);
    lemma_reach_cells(g, d, a, b, false);
    lemma_two_tints(g, d, s, j, a);
    lemma_two_tints(g, d, s, j, b);
    lemma_join(g, d, j, a, b, false, false);
    lemma_shade(c[j]);
    assert(c[j] == c[a] && c[j] == c[b]);
    geometry::law_peers_share(a, b);
    assert(geometry::peer(a, b));
    assert(chains::dead(c, c[j] == Some(true)));
    lemma_root_strikes(g, d, s, j);
}

/// No two cells that are linked to `a`, and to each other by an even chain, see each
/// other.
pub open spec fn is_clean(g: Grid, d: u8, a: int) -> bool {
    forall|x: int, y: int|
        #![trigger reach(g, d, x, y, false)]
        joins(g, d, a, x) && reach(g, d, x, y, false) ==> !geometry::shares(x, y)
}

/// A cell that sees both sides of a group of three or more cells, no two of one side
/// seeing each other, loses the digit.
pub proof fn law_trapped_cell_goes(g: Grid, d: u8, j: int, a: int, b: int, c: int)
    requires
        grid::wf(g),
        1 <= d <= 9,
        0 <= j < 81,
        is_trapped(g, d, j, a, b, c),
        is_clean(g, d, a),
    ensures
        !chains::single_digit_chains(g).cands[j].contains(d),
{
    let s = lemma_trap(g, d, j, a, b, c);
    let t = tint(g, d, s);
    lemma_reach_cells(g, d, a, b, true);
    assert forall|shade: bool| !(#[trigger] chains::dead(t, shade)) by {
        if chains::dead(t, shade) {
            let (x, y) = choose|x: int, y: int|
                #![trigger geometry::peer(x, y)]
                0 <= x < 81 && 0 <= y < 81 && t[x] == Some(shade) && t[y] == Some(shade)
                    && geometry::peer(x, y);
            lemma_two_tints(g, d, s, a, x);
            lemma_two_tints(g, d, s, x, y);
            geometry::law_peers_share(x, y);
        }
    }
    lemma_root_strikes(g, d, s, j);
}

/// A cell that sees both outer ends of a Skyscraper or a Two-String Kite loses the digit.
pub proof fn law_strung_cell_goes(g: Grid, d: u8, j: int)
    requires
        grid::wf(g),
        1 <= d <= 9,
        0 <= j < 81,
        is_strung_out(g, d, j),
    ensures
        !chains::single_digit_chains(g).cands[j].contains(d),
{
    lemma_strung(g, d, j);
    lemma_outcome(g, d, j);
}

} // verus!
