//! Single-digit chains of strong links: simple colouring, together with the two links
//! of Skyscraper and Two-String Kite.

use crate::board::CELLS;
use crate::geometry;
use crate::grid;
use crate::grid::Grid;
use crate::kites;
use crate::mask;
use crate::seqs;
use crate::solver;
use crate::solver::Solver;
use crate::spots;
use vstd::prelude::*;

verus! {

/// Two cells, the only spots for a digit in some unit.
pub type Link = (usize, usize);

/// The strong links for `d` in the first `n` units, in order.
pub open spec fn links_below(g: Grid, d: u8, n: nat) -> Seq<Link>
    decreases n,
{
    if n == 0 {
        Seq::empty()
    } else {
        let before = links_below(g, d, (n - 1) as nat);
        let s = spots::spots(g, n - 1, d);
        if s.len() == 2 {
            before.push((s[0], s[1]))
        } else {
            before
        }
    }
}

/// The strong links for `d`: one for each unit with just two spots.
pub open spec fn links(g: Grid, d: u8) -> Seq<Link> {
    links_below(g, d, 27)
}

/// The cell is an end of some link.
pub open spec fn is_node(ls: Seq<Link>, c: usize) -> bool {
    exists|k: int| 0 <= k < ls.len() && ((#[trigger] ls[k]).0 == c || ls[k].1 == c)
}

/// The other ends of the links at cell `c`, in order.
pub open spec fn neighbours(ls: Seq<Link>, c: usize) -> Seq<usize>
    decreases ls.len(),
{
    if ls.len() == 0 {
        Seq::empty()
    } else {
        let before = neighbours(ls.drop_last(), c);
        if ls.last().0 == c {
            before.push(ls.last().1)
        } else if ls.last().1 == c {
            before.push(ls.last().0)
        } else {
            before
        }
    }
}

/// A walk over the links: cells still to be left, and the colours given so far.
#[verifier::ext_equal]
pub struct Walk {
    pub stack: Seq<usize>,
    pub colour: Seq<Option<bool>>,
}

/// Gives each uncoloured cell of `ns` the colour `shade` and puts it on the stack.
pub open spec fn paint(w: Walk, ns: Seq<usize>, shade: bool) -> Walk
    decreases ns.len(),
{
    if ns.len() == 0 {
        w
    } else {
        let v = paint(w, ns.drop_last(), shade);
        let n = ns.last();
        if v.colour[n as int] is None {
            Walk { stack: v.stack.push(n), colour: v.colour.update(n as int, Some(shade)) }
        } else {
            v
        }
    }
}

/// Takes the top cell from the stack and gives its neighbours the other colour.
pub open spec fn advance(ls: Seq<Link>, w: Walk) -> Walk {
    if w.stack.len() == 0 {
        w
    } else {
        let c = w.stack.last();
        paint(
            Walk { stack: w.stack.drop_last(), colour: w.colour },
            neighbours(ls, c),
            w.colour[c as int] != Some(true),
        )
    }
}

pub open spec fn walk_from(start: usize) -> Walk {
    Walk {
        stack: seq![start],
        colour: Seq::new(81, |i: int| None::<bool>).update(start as int, Some(true)),
    }
}

pub open spec fn walk(ls: Seq<Link>, start: usize, n: nat) -> Walk
    decreases n,
{
    if n == 0 {
        walk_from(start)
    } else {
        advance(ls, walk(ls, start, (n - 1) as nat))
    }
}

/// The two-colouring of the cells linked to `start`, which itself has the colour
/// `true`.
pub open spec fn colours(ls: Seq<Link>, start: usize) -> Seq<Option<bool>> {
    walk(ls, start, 81).colour
}

/// How many cells have a colour.
pub open spec fn coloured(c: Seq<Option<bool>>) -> nat
    decreases c.len(),
{
    if c.len() == 0 {
        0
    } else {
        coloured(c.drop_last()) + if c.last() is Some {
            1nat
        } else {
            0
        }
    }
}

/// Two cells of the colour `shade` are peers.
pub open spec fn dead(c: Seq<Option<bool>>, shade: bool) -> bool {
    exists|i: int, j: int|
        #![trigger geometry::peer(i, j)]
        0 <= i < 81 && 0 <= j < 81 && c[i] == Some(shade) && c[j] == Some(shade) && geometry::peer(
            i,
            j,
        )
}

/// Cell `j` has a peer of the colour `shade`.
pub open spec fn sees(c: Seq<Option<bool>>, shade: bool, j: int) -> bool {
    exists|i: int| 0 <= i < 81 && c[i] == Some(shade) && #[trigger] geometry::peer(j, i)
}

/// What a colouring of three or more cells rules out: a colour with two peers
/// among its cells, in all its cells; and, where there is no such colour, the
/// uncoloured cells that see both colours.
pub open spec fn chain_hits(c: Seq<Option<bool>>, j: int) -> bool {
    &&& coloured(c) >= 3
    &&& if dead(c, true) || dead(c, false) {
        (c[j] == Some(true) && dead(c, true)) || (c[j] == Some(false) && dead(c, false))
    } else {
        c[j] is None && sees(c, true, j) && sees(c, false, j)
    }
}

pub open spec fn cells_coloured(c: Seq<Option<bool>>) -> Set<int> {
    Set::new(|i: int| 0 <= i < 81 && c[i] is Some)
}

/// The cells coloured before cell `n` is reached: each linked cell, in reading
/// order, starts a colouring unless it has a colour already.
pub open spec fn visited(ls: Seq<Link>, n: nat) -> Set<int>
    decreases n,
{
    if n == 0 {
        Set::empty()
    } else {
        let s = n - 1;
        let before = visited(ls, s as nat);
        if is_node(ls, s as usize) && !before.contains(s) {
            before.union(cells_coloured(colours(ls, s as usize)))
        } else {
            before
        }
    }
}

/// Cell `s` is the first of a group of linked cells.
pub open spec fn is_root(ls: Seq<Link>, s: int) -> bool {
    is_node(ls, s as usize) && !visited(ls, s as nat).contains(s)
}

/// Digit `d` in the cells that the colouring of a group rules out, for the groups
/// that start below cell `n`.
pub open spec fn chain_gone(ls: Seq<Link>, d: u8, n: int) -> spec_fn(int, u8) -> bool {
    |j: int, e: u8|
        e == d && exists|s: int|
            0 <= s < n && #[trigger] is_root(ls, s) && chain_hits(colours(ls, s as usize), j)
}

/// Chains of strong links for digit `d`, where there are two links or more: what the
/// colourings of the groups rule out, and what Skyscraper and Two-String Kite do.
pub open spec fn chain_at(g: Grid, d: u8) -> Grid {
    let ls = links(g, d);
    if ls.len() < 2 {
        g
    } else {
        grid::without(grid::without(g, chain_gone(ls, d, 81)), kites::kite_gone(g, d))
    }
}

pub open spec fn chain_step() -> spec_fn(Grid, int) -> Grid {
    |g: Grid, k: int| chain_at(g, (k + 1) as u8)
}

/// Single-digit chains, digit by digit.
pub open spec fn single_digit_chains(g: Grid) -> Grid {
    grid::sweep(g, 9, chain_step())
}

pub proof fn lemma_chain_at(g: Grid, d: u8)
    requires
        grid::wf(g),
    ensures
        grid::follows(g, chain_at(g, d)),
{
    let h = grid::without(g, chain_gone(links(g, d), d, 81));
    grid::lemma_without(g, chain_gone(links(g, d), d, 81));
    grid::lemma_without(h, kites::kite_gone(g, d));
    grid::lemma_chain(g, h, grid::without(h, kites::kite_gone(g, d)));
}

pub proof fn lemma_single_digit_chains(g: Grid)
    requires
        grid::wf(g),
    ensures
        grid::follows(g, single_digit_chains(g)),
{
    assert forall|h: Grid, k: int| 0 <= k < 9 && grid::wf(h) implies grid::follows(
        h,
        #[trigger] chain_step()(h, k),
    ) by {
        lemma_chain_at(h, (k + 1) as u8);
    }
    grid::lemma_sweep_follows(g, 9, chain_step());
}

/// Both ends of every link are cells.
pub open spec fn on_board(ls: Seq<Link>) -> bool {
    forall|k: int| 0 <= k < ls.len() ==> (#[trigger] ls[k]).0 < 81 && ls[k].1 < 81
}

/// The link joins the only two spots for `d` in unit `u`.
pub open spec fn is_pair(g: Grid, d: u8, u: int, l: Link) -> bool {
    &&& 0 <= u < 27
    &&& spots::spots(g, u, d).len() == 2
    &&& l == (spots::spots(g, u, d)[0], spots::spots(g, u, d)[1])
}

/// The link joins the only two spots for `d` in some unit.
pub open spec fn is_strong(g: Grid, d: u8, l: Link) -> bool {
    exists|u: int| #[trigger] is_pair(g, d, u, l)
}

pub proof fn lemma_links(g: Grid, d: u8, n: nat)
    requires
        n <= 27,
    ensures
        on_board(links_below(g, d, n)),
        links_below(g, d, n).len() <= n,
        forall|k: int|
            0 <= k < links_below(g, d, n).len() ==> is_strong(
                g,
                d,
                #[trigger] links_below(g, d, n)[k],
            ),
    decreases n,
{
    if n > 0 {
        lemma_links(g, d, (n - 1) as nat);
        spots::lemma_spots(g, n - 1, d);
        let ls = links_below(g, d, n);
        let before = links_below(g, d, (n - 1) as nat);
        assert forall|k: int| 0 <= k < ls.len() implies is_strong(g, d, #[trigger] ls[k]) by {
            if k < before.len() {
                assert(ls[k] == before[k]);
            } else {
                assert(is_pair(g, d, n - 1, ls[k]));
            }
        }
    }
}

/// Some link joins the two cells.
pub open spec fn joined(ls: Seq<Link>, a: usize, b: usize) -> bool {
    exists|n: int| 0 <= n < ls.len() && (#[trigger] ls[n] == (a, b) || ls[n] == (b, a))
}

pub proof fn lemma_neighbours(ls: Seq<Link>, c: usize)
    requires
        on_board(ls),
    ensures
        forall|k: int|
            0 <= k < neighbours(ls, c).len() ==> #[trigger] neighbours(ls, c)[k] < 81 && joined(
                ls,
                c,
                neighbours(ls, c)[k],
            ),
    decreases ls.len(),
{
    if ls.len() > 0 {
        let t = ls.drop_last();
        lemma_neighbours(t, c);
        let ns = neighbours(ls, c);
        let before = neighbours(t, c);
        assert forall|k: int| 0 <= k < ns.len() implies #[trigger] ns[k] < 81 && joined(
            ls,
            c,
            ns[k],
        ) by {
            if k < before.len() {
                assert(ns[k] == before[k]);
                let n = choose|n: int|
                    0 <= n < t.len() && (#[trigger] t[n] == (c, before[k]) || t[n] == (
                        before[k],
                        c,
                    ));
                assert(ls[n] == t[n]);
            } else {
                let n = ls.len() - 1;
                assert(ls[n] == ls.last());
                assert(ls[n] == (c, ns[k]) || ls[n] == (ns[k], c));
            }
        }
    }
}

/// The stack of a walk holds coloured cells.
pub open spec fn walk_ok(w: Walk) -> bool {
    &&& w.colour.len() == 81
    &&& forall|k: int|
        0 <= k < w.stack.len() ==> #[trigger] w.stack[k] < 81 && w.colour[w.stack[k] as int] is Some
}

proof fn lemma_coloured_update(c: Seq<Option<bool>>, i: int, b: bool)
    requires
        0 <= i < c.len(),
        c[i] is None,
    ensures
        coloured(c.update(i, Some(b))) == coloured(c) + 1,
    decreases c.len(),
{
    let e = c.update(i, Some(b));
    if i == c.len() - 1 {
        assert(e.drop_last() =~= c.drop_last());
    } else {
        assert(e.drop_last() =~= c.drop_last().update(i, Some(b)));
        lemma_coloured_update(c.drop_last(), i, b);
    }
}

proof fn lemma_coloured_bound(c: Seq<Option<bool>>)
    ensures
        coloured(c) <= c.len(),
    decreases c.len(),
{
    if c.len() > 0 {
        lemma_coloured_bound(c.drop_last());
    }
}

proof fn lemma_paint(w: Walk, ns: Seq<usize>, shade: bool)
    requires
        walk_ok(w),
        forall|k: int| 0 <= k < ns.len() ==> #[trigger] ns[k] < 81,
    ensures
        walk_ok(paint(w, ns, shade)),
        coloured(paint(w, ns, shade).colour) + w.stack.len() == coloured(w.colour) + paint(
            w,
            ns,
            shade,
        ).stack.len(),
    decreases ns.len(),
{
    if ns.len() > 0 {
        lemma_paint(w, ns.drop_last(), shade);
        let v = paint(w, ns.drop_last(), shade);
        let n = ns.last();
        assert(ns[ns.len() - 1] < 81);
        if v.colour[n as int] is None {
            lemma_coloured_update(v.colour, n as int, shade);
        }
    }
}

/// After `n` steps a walk is over, or `n` coloured cells have left the stack.
pub proof fn lemma_walk(ls: Seq<Link>, start: usize, n: nat)
    requires
        on_board(ls),
        start < 81,
    ensures
        walk_ok(walk(ls, start, n)),
        walk(ls, start, n).stack.len() == 0 || coloured(walk(ls, start, n).colour) == n + walk(
            ls,
            start,
            n,
        ).stack.len(),
    decreases n,
{
    if n == 0 {
        let blank = Seq::new(81, |i: int| None::<bool>);
        lemma_coloured_update(blank, start as int, true);
        lemma_blank(81);
        assert(coloured(blank) == 0);
    } else {
        lemma_walk(ls, start, (n - 1) as nat);
        let w = walk(ls, start, (n - 1) as nat);
        if w.stack.len() > 0 {
            let c = w.stack.last();
            lemma_neighbours(ls, c);
            let v = Walk { stack: w.stack.drop_last(), colour: w.colour };
            assert forall|k: int| 0 <= k < v.stack.len() implies #[trigger] v.stack[k] < 81
                && v.colour[v.stack[k] as int] is Some by {
                assert(v.stack[k] == w.stack[k]);
            }
            lemma_paint(v, neighbours(ls, c), w.colour[c as int] != Some(true));
        }
    }
}

proof fn lemma_blank(n: nat)
    ensures
        coloured(Seq::new(n, |i: int| None::<bool>)) == 0,
    decreases n,
{
    if n > 0 {
        lemma_blank((n - 1) as nat);
        assert(Seq::new(n, |i: int| None::<bool>).drop_last() =~= Seq::new(
            (n - 1) as nat,
            |i: int| None::<bool>,
        ));
    }
}

/// Every link of the cell leads to one of its neighbours.
proof fn lemma_neighbours_all(ls: Seq<Link>, c: usize, b: usize)
    requires
        joined(ls, c, b),
    ensures
        neighbours(ls, c).contains(b),
    decreases ls.len(),
{
    let n = choose|n: int| 0 <= n < ls.len() && (#[trigger] ls[n] == (c, b) || ls[n] == (b, c));
    let t = ls.drop_last();
    let ns = neighbours(ls, c);
    if n == ls.len() - 1 {
        assert(ls.last() == ls[n]);
        assert(ns.last() == b);
        assert(ns[ns.len() - 1] == b);
    } else {
        assert(t[n] == ls[n]);
        lemma_neighbours_all(t, c, b);
        let before = neighbours(t, c);
        let k = before.index_of(b);
        assert(ns[k] == b);
    }
}

/// What painting leaves coloured, and what it puts on the stack.
proof fn lemma_paint_covers(w: Walk, ns: Seq<usize>, shade: bool)
    requires
        walk_ok(w),
        forall|k: int| 0 <= k < ns.len() ==> #[trigger] ns[k] < 81,
    ensures
        paint(w, ns, shade).colour.len() == 81,
        forall|i: int|
            #![trigger paint(w, ns, shade).colour[i]]
            0 <= i < 81 && w.colour[i] is Some ==> paint(w, ns, shade).colour[i] is Some,
        forall|k: int|
            0 <= k < ns.len() ==> paint(w, ns, shade).colour[#[trigger] ns[k] as int] is Some,
        forall|x: usize|
            w.stack.contains(x) ==> #[trigger] paint(w, ns, shade).stack.contains(x),
        forall|i: usize|
            i < 81 && w.colour[i as int] is None && paint(w, ns, shade).colour[i as int] is Some
                ==> #[trigger] paint(w, ns, shade).stack.contains(i),
    decreases ns.len(),
{
    if ns.len() > 0 {
        let t = ns.drop_last();
        lemma_paint_covers(w, t, shade);
        let v = paint(w, t, shade);
        let p = paint(w, ns, shade);
        let n = ns.last();
        assert(ns[ns.len() - 1] < 81);
        solver::lemma_push_members(v.stack, n);
        assert forall|k: int| 0 <= k < ns.len() implies p.colour[#[trigger] ns[k] as int] is Some by {
            if k < t.len() {
                assert(t[k] == ns[k]);
                assert(v.colour[t[k] as int] is Some);
            }
        }
    }
}

/// Where a coloured cell is linked to one without a colour, it is still to be left.
pub open spec fn nearly_closed(ls: Seq<Link>, w: Walk) -> bool {
    forall|a: usize, b: usize|
        a < 81 && b < 81 && w.colour[a as int] is Some && #[trigger] joined(ls, a, b)
            ==> w.colour[b as int] is Some || w.stack.contains(a)
}

proof fn lemma_walk_closed(ls: Seq<Link>, start: usize, n: nat)
    requires
        on_board(ls),
        start < 81,
    ensures
        nearly_closed(ls, walk(ls, start, n)),
    decreases n,
{
    if n == 0 {
        assert(walk_from(start).stack[0] == start);
    } else {
        let m = (n - 1) as nat;
        lemma_walk_closed(ls, start, m);
        lemma_walk(ls, start, m);
        let w = walk(ls, start, m);
        if w.stack.len() > 0 {
            let c = w.stack.last();
            let v = Walk { stack: w.stack.drop_last(), colour: w.colour };
            let ns = neighbours(ls, c);
            let shade = w.colour[c as int] != Some(true);
            lemma_neighbours(ls, c);
            assert forall|k: int| 0 <= k < v.stack.len() implies #[trigger] v.stack[k] < 81
                && v.colour[v.stack[k] as int] is Some by {
                assert(v.stack[k] == w.stack[k]);
            }
            lemma_paint_covers(v, ns, shade);
            let p = paint(v, ns, shade);
            assert(walk(ls, start, n) == p);
            assert forall|a: usize, b: usize|
                a < 81 && b < 81 && p.colour[a as int] is Some && #[trigger] joined(
                    ls,
                    a,
                    b,
                ) implies p.colour[b as int] is Some || p.stack.contains(a) by {
                if w.colour[a as int] is Some {
                    if a == c {
                        lemma_neighbours_all(ls, c, b);
                        let k = ns.index_of(b);
                        assert(p.colour[ns[k] as int] is Some);
                    } else if w.colour[b as int] is None {
                        assert(w.stack.contains(a));
                        let k = w.stack.index_of(a);
                        assert(v.stack[k] == a);
                        assert(v.stack.contains(a));
                        assert(p.stack.contains(a));
                    }
                } else {
                    assert(p.stack.contains(a));
                }
            }
        }
    }
}

/// The colouring of a group is complete: 81 steps leave nothing to visit, and every
/// cell that is linked to a coloured one has a colour.
pub proof fn law_groups_are_complete(ls: Seq<Link>, start: usize, a: usize, b: usize)
    requires
        on_board(ls),
        start < 81,
        a < 81,
        b < 81,
    ensures
        walk(ls, start, 81).stack.len() == 0,
        colours(ls, start)[start as int] is Some,
        colours(ls, start)[a as int] is Some && joined(ls, a, b) ==> colours(ls, start)[b as int] is Some,
{
    lemma_walk(ls, start, 81);
    lemma_coloured_bound(colours(ls, start));
    lemma_walk_closed(ls, start, 81);
    lemma_start_coloured(ls, start, 81);
}

proof fn lemma_start_coloured(ls: Seq<Link>, start: usize, n: nat)
    requires
        on_board(ls),
        start < 81,
    ensures
        walk(ls, start, n).colour[start as int] is Some,
    decreases n,
{
    if n > 0 {
        let m = (n - 1) as nat;
        lemma_start_coloured(ls, start, m);
        lemma_walk(ls, start, m);
        let w = walk(ls, start, m);
        if w.stack.len() > 0 {
            let c = w.stack.last();
            let v = Walk { stack: w.stack.drop_last(), colour: w.colour };
            lemma_neighbours(ls, c);
            assert forall|k: int| 0 <= k < v.stack.len() implies #[trigger] v.stack[k] < 81
                && v.colour[v.stack[k] as int] is Some by {
                assert(v.stack[k] == w.stack[k]);
            }
            lemma_paint_covers(v, neighbours(ls, c), w.colour[c as int] != Some(true));
        }
    }
}

/// Of the two ends of a strong link, a solution has the digit at just one.
pub proof fn lemma_strong_link(g: Grid, f: Seq<u8>, d: u8, l: Link)
    requires
        grid::wf(g),
        grid::fits(g, f),
        1 <= d <= 9,
        is_strong(g, d, l),
    ensures
        l.0 < 81,
        l.1 < 81,
        l.0 != l.1,
        (f[l.0 as int] == d) != (f[l.1 as int] == d),
{
    let u = choose|u: int| #[trigger] is_pair(g, d, u, l);
    let s = spots::spots(g, u, d);
    spots::lemma_spots(g, u, d);
    assert(s[0] < 81 && s[1] < 81);
    let i = spots::lemma_spot_of(g, f, u, d);
    assert(grid::open_at(g, s[0] as int, d));
    assert(s.contains(i as usize));
    geometry::lemma_unit_peers(u, s[0] as int, s[1] as int);
}

/// The colours of a walk tell where a solution has the digit.
pub open spec fn tells(c: Seq<Option<bool>>, f: Seq<u8>, d: u8, truth: bool) -> bool {
    forall|i: int|
        #![trigger c[i]]
        0 <= i < 81 && c[i] is Some ==> (f[i] == d) == (c[i] == Some(truth))
}

proof fn lemma_paint_tells(w: Walk, ns: Seq<usize>, shade: bool, f: Seq<u8>, d: u8, truth: bool)
    requires
        w.colour.len() == 81,
        tells(w.colour, f, d, truth),
        forall|k: int|
            0 <= k < ns.len() ==> #[trigger] ns[k] < 81 && (f[ns[k] as int] == d) == (shade == truth),
    ensures
        paint(w, ns, shade).colour.len() == 81,
        tells(paint(w, ns, shade).colour, f, d, truth),
    decreases ns.len(),
{
    if ns.len() > 0 {
        lemma_paint_tells(w, ns.drop_last(), shade, f, d, truth);
        assert(ns[ns.len() - 1] < 81);
    }
}

proof fn lemma_walk_tells(g: Grid, f: Seq<u8>, d: u8, start: usize, n: nat)
    requires
        grid::wf(g),
        grid::fits(g, f),
        1 <= d <= 9,
        start < 81,
    ensures
        tells(walk(links(g, d), start, n).colour, f, d, f[start as int] == d),
    decreases n,
{
    let ls = links(g, d);
    let truth = f[start as int] == d;
    lemma_links(g, d, 27);
    if n > 0 {
        lemma_walk_tells(g, f, d, start, (n - 1) as nat);
        lemma_walk(ls, start, (n - 1) as nat);
        let w = walk(ls, start, (n - 1) as nat);
        if w.stack.len() > 0 {
            let c = w.stack.last();
            assert(w.stack[w.stack.len() - 1] == c);
            let ns = neighbours(ls, c);
            let shade = w.colour[c as int] != Some(true);
            lemma_neighbours(ls, c);
            assert(w.colour[c as int] is Some);
            let b = w.colour[c as int].unwrap();
            assert(w.colour[c as int] == Some(b) && shade == !b);
            assert((f[c as int] == d) == (b == truth));
            assert forall|k: int| 0 <= k < ns.len() implies #[trigger] ns[k] < 81 && (f[ns[k] as int]
                == d) == (shade == truth) by {
                assert(joined(ls, c, ns[k]));
                let m = choose|m: int|
                    0 <= m < ls.len() && (#[trigger] ls[m] == (c, ns[k]) || ls[m] == (ns[k], c));
                lemma_strong_link(g, f, d, ls[m]);
            }
            lemma_paint_tells(
                Walk { stack: w.stack.drop_last(), colour: w.colour },
                ns,
                shade,
                f,
                d,
                truth,
            );
        }
    }
}

/// Single-digit chains never rule out a solution.
pub proof fn law_single_digit_chains_sound(g: Grid, f: Seq<u8>)
    requires
        grid::wf(g),
        grid::fits(g, f),
    ensures
        grid::fits(single_digit_chains(g), f),
{
    assert forall|h: Grid, k: int| 0 <= k < 9 && grid::wf(h) implies grid::follows(
        h,
        #[trigger] chain_step()(h, k),
    ) by {
        lemma_chain_at(h, (k + 1) as u8);
    }
    assert forall|h: Grid, k: int| 0 <= k < 9 && grid::wf(h) && grid::fits(h, f) implies grid::fits(
        #[trigger] chain_step()(h, k),
        f,
    ) by {
        let d = (k + 1) as u8;
        let ls = links(h, d);
        let gone = chain_gone(ls, d, 81);
        assert forall|j: int| #![trigger f[j]] 0 <= j < 81 && h.cells[j] == 0 implies !gone(j, f[j]) by {
            if gone(j, f[j]) {
                let s = choose|s: int|
                    0 <= s < 81 && #[trigger] is_root(ls, s) && chain_hits(
                        colours(ls, s as usize),
                        j,
                    );
                lemma_chain_hits(h, f, d, s as usize, j);
            }
        }
        grid::lemma_without_fits(h, gone, f);
        grid::lemma_without(h, gone);
        let strings = kites::kite_gone(h, d);
        assert forall|j: int| #![trigger f[j]] 0 <= j < 81 && h.cells[j] == 0 implies !strings(j, f[j]) by {
            if strings(j, f[j]) {
                kites::lemma_some_hit(h, f, d, j);
            }
        }
        grid::lemma_without_fits(grid::without(h, gone), strings, f);
    }
    grid::lemma_sweep_fits(g, 9, chain_step(), f);
}

/// The grids have the same digits, and the same candidates as far as `d` goes.
pub open spec fn same_for(g: Grid, h: Grid, d: u8) -> bool {
    &&& h.cells == g.cells
    &&& forall|i: int|
        0 <= i < 81 ==> #[trigger] h.cands[i].contains(d) == g.cands[i].contains(d)
}

/// The link of unit `u` comes after those of the units before it.
proof fn lemma_link_of(g: Grid, d: u8, u: int, n: nat)
    requires
        0 <= u < n,
        spots::spots(g, u, d).len() == 2,
    ensures
        links_below(g, d, u as nat).len() < links_below(g, d, n).len(),
    decreases n,
{
    if u + 1 < n {
        lemma_link_of(g, d, u, (n - 1) as nat);
    }
}

/// Before its turn nothing is done about digit `d`, and afterwards nothing comes back.
proof fn lemma_digits_apart(g: Grid, d: u8, j: int, n: nat)
    requires
        grid::wf(g),
        1 <= d <= 9,
        0 <= j < 81,
        n <= 9,
    ensures
        grid::wf(grid::sweep(g, n, chain_step())),
        n < d ==> same_for(g, grid::sweep(g, n, chain_step()), d),
        n >= d ==> grid::sweep(g, n, chain_step()).cands[j].contains(d) ==> chain_at(
            grid::sweep(g, (d - 1) as nat, chain_step()),
            d,
        ).cands[j].contains(d),
    decreases n,
{
    if n > 0 {
        lemma_digits_apart(g, d, j, (n - 1) as nat);
        let before = grid::sweep(g, (n - 1) as nat, chain_step());
        lemma_chain_at(before, n as u8);
        assert(grid::sweep(g, n, chain_step()) == chain_at(before, n as u8));
    }
}

/// Two units with just two spots each give two links.
pub proof fn lemma_two_links(g: Grid, d: u8, u: int, v: int)
    requires
        0 <= u < 27,
        0 <= v < 27,
        u != v,
        spots::spots(g, u, d).len() == 2,
        spots::spots(g, v, d).len() == 2,
    ensures
        links(g, d).len() >= 2,
{
    lemma_link_of(g, d, u, 27);
    lemma_link_of(g, d, v, 27);
    if u < v {
        lemma_link_of(g, d, u, v as nat);
    } else {
        lemma_link_of(g, d, v, u as nat);
    }
}

/// What Skyscraper and Two-String Kite rule out is gone in the end.
pub proof fn lemma_struck(g: Grid, d: u8, j: int)
    requires
        grid::wf(g),
        1 <= d <= 9,
        0 <= j < 81,
        kites::some_hit(g, d, 18, j),
        links(g, d).len() >= 2,
    ensures
        !single_digit_chains(g).cands[j].contains(d),
{
    let h = grid::sweep(g, (d - 1) as nat, chain_step());
    lemma_digits_apart(g, d, j, (d - 1) as nat);
    lemma_digits_apart(g, d, j, 9);
    kites::lemma_same_hits(g, h, d, j);
    lemma_same_links(g, h, d, 27);
}

pub proof fn lemma_same_links(g: Grid, h: Grid, d: u8, n: nat)
    requires
        same_for(g, h, d),
        n <= 27,
    ensures
        links_below(h, d, n) == links_below(g, d, n),
    decreases n,
{
    if n > 0 {
        let u = n - 1;
        lemma_same_links(g, h, d, u as nat);
        geometry::lemma_unit(u);
        seqs::lemma_filter_agree(geometry::unit(u), spots::is_spot(h, d), spots::is_spot(g, d));
    }
}

/// A colouring hits no cell that has the digit in a solution.
proof fn lemma_chain_hits(g: Grid, f: Seq<u8>, d: u8, start: usize, j: int)
    requires
        grid::wf(g),
        grid::fits(g, f),
        1 <= d <= 9,
        start < 81,
        0 <= j < 81,
        f[j] == d,
    ensures
        !chain_hits(colours(links(g, d), start), j),
{
    let c = colours(links(g, d), start);
    let truth = f[start as int] == d;
    lemma_walk_tells(g, f, d, start, 81);
    if dead(c, truth) {
        let (a, b) = choose|a: int, b: int|
            #![trigger geometry::peer(a, b)]
            0 <= a < 81 && 0 <= b < 81 && c[a] == Some(truth) && c[b] == Some(truth)
                && geometry::peer(a, b);
        assert(f[a] == d && f[b] == d);
    }
    if sees(c, truth, j) {
        let i = choose|i: int| 0 <= i < 81 && c[i] == Some(truth) && #[trigger] geometry::peer(j, i);
        assert(f[i] == d);
    }
}

/// The strong links for `d`.
pub fn strong_links(s: &Solver, d: u8) -> (ls: Vec<Link>)
    requires
        d < 16,
    ensures
        ls@ == links(s@, d),
{
    let mut ls: Vec<Link> = Vec::new();
    let mut u: usize = 0;
    while u < 27
        invariant
            u <= 27,
            d < 16,
            ls@ == links_below(s@, d, u as nat),
        decreases 27 - u,
    {
        let spots = s.spots(u, d);
        if spots.len() == 2 {
            ls.push((spots[0], spots[1]));
        }
        u = u + 1;
    }
    ls
}

fn linked_to(ls: &Vec<Link>, c: usize) -> (ns: Vec<usize>)
    ensures
        ns@ == neighbours(ls@, c),
{
    let mut ns: Vec<usize> = Vec::new();
    let mut k: usize = 0;
    while k < ls.len()
        invariant
            k <= ls@.len(),
            ns@ == neighbours(ls@.take(k as int), c),
        decreases ls@.len() - k,
    {
        assert(ls@.take(k + 1).drop_last() =~= ls@.take(k as int));
        let (a, b) = ls[k];
        if a == c {
            ns.push(b);
        } else if b == c {
            ns.push(a);
        }
        k = k + 1;
    }
    assert(ls@.take(ls@.len() as int) =~= ls@);
    ns
}

fn has_node(ls: &Vec<Link>, c: usize) -> (yes: bool)
    ensures
        yes == is_node(ls@, c),
{
    let mut k: usize = 0;
    while k < ls.len()
        invariant
            k <= ls@.len(),
            forall|n: int| 0 <= n < k ==> (#[trigger] ls@[n]).0 != c && ls@[n].1 != c,
        decreases ls@.len() - k,
    {
        if ls[k].0 == c || ls[k].1 == c {
            return true;
        }
        k = k + 1;
    }
    false
}

/// The two-colouring of the cells linked to `start`.
fn colour_from(ls: &Vec<Link>, start: usize) -> (colour: Vec<Option<bool>>)
    requires
        on_board(ls@),
        start < 81,
    ensures
        colour@ == colours(ls@, start),
        colour@.len() == 81,
{
    let mut colour: Vec<Option<bool>> = Vec::new();
    while colour.len() < CELLS
        invariant
            colour@.len() <= 81,
            forall|i: int| 0 <= i < colour@.len() ==> (#[trigger] colour@[i]) is None,
        decreases 81 - colour@.len(),
    {
        colour.push(None);
    }
    colour[start] = Some(true);
    let mut stack: Vec<usize> = Vec::new();
    stack.push(start);
    let mut n: usize = 0;
    proof {
        assert(colour@ =~= walk_from(start).colour);
        assert(stack@ =~= walk_from(start).stack);
        lemma_walk(ls@, start, 0);
    }
    while n < CELLS
        invariant
            n <= 81,
            on_board(ls@),
            start < 81,
            (Walk { stack: stack@, colour: colour@ }) == walk(ls@, start, n as nat),
            walk_ok(walk(ls@, start, n as nat)),
        decreases 81 - n,
    {
        proof {
            lemma_walk(ls@, start, (n + 1) as nat);
        }
        let ghost w = Walk { stack: stack@, colour: colour@ };
        if let Some(cur) = stack.pop() {
            assert(w.stack[w.stack.len() - 1] == cur);
            let shade = match colour[cur] {
                Some(b) => !b,
                None => true,
            };
            let ns = linked_to(ls, cur);
            let ghost v = Walk { stack: w.stack.drop_last(), colour: w.colour };
            proof {
                lemma_neighbours(ls@, cur);
                assert(shade == (w.colour[cur as int] != Some(true)));
                assert(stack@ =~= v.stack);
                assert(ns@.take(0) =~= Seq::<usize>::empty());
            }
            let mut k: usize = 0;
            while k < ns.len()
                invariant
                    k <= ns@.len(),
                    forall|m: int| 0 <= m < ns@.len() ==> #[trigger] ns@[m] < 81,
                    colour@.len() == 81,
                    (Walk { stack: stack@, colour: colour@ }) == paint(v, ns@.take(k as int), shade),
                decreases ns@.len() - k,
            {
                let c = ns[k];
                assert(ns@.take(k + 1).drop_last() =~= ns@.take(k as int));
                if colour[c].is_none() {
                    colour[c] = Some(shade);
                    stack.push(c);
                }
                k = k + 1;
            }
            assert(ns@.take(ns@.len() as int) =~= ns@);
        }
        n = n + 1;
    }
    colour
}

/// The cells of the colour `shade`, in reading order.
fn cells_of(c: &Vec<Option<bool>>, shade: bool) -> (v: Vec<usize>)
    requires
        c@.len() == 81,
    ensures
        forall|k: int| 0 <= k < v@.len() ==> #[trigger] v@[k] < 81,
        v@.no_duplicates(),
        forall|i: usize| #[trigger] v@.contains(i) <==> i < 81 && c@[i as int] == Some(shade),
{
    let mut v: Vec<usize> = Vec::new();
    let mut i: usize = 0;
    while i < CELLS
        invariant
            i <= 81,
            c@.len() == 81,
            v@.no_duplicates(),
            forall|k: int| 0 <= k < v@.len() ==> #[trigger] v@[k] < i,
            forall|j: usize| #[trigger] v@.contains(j) <==> j < i && c@[j as int] == Some(shade),
        decreases 81 - i,
    {
        let ghost before = v@;
        let here = match c[i] {
            Some(b) => b == shade,
            None => false,
        };
        if here {
            v.push(i);
        }
        proof {
            solver::lemma_push_members(before, i);
        }
        i = i + 1;
    }
    v
}

proof fn lemma_dead(c: Seq<Option<bool>>, shade: bool, v: Seq<usize>)
    requires
        c.len() == 81,
        v.no_duplicates(),
        forall|k: int| 0 <= k < v.len() ==> #[trigger] v[k] < 81,
        forall|i: usize| #[trigger] v.contains(i) <==> i < 81 && c[i as int] == Some(shade),
    ensures
        dead(c, shade) <==> exists|i: int, j: int|
            0 <= i < j < v.len() && geometry::peer(v[i] as int, v[j] as int),
{
    if dead(c, shade) {
        let (a, b) = choose|a: int, b: int|
            #![trigger geometry::peer(a, b)]
            0 <= a < 81 && 0 <= b < 81 && c[a] == Some(shade) && c[b] == Some(shade)
                && geometry::peer(a, b);
        assert(v.contains(a as usize) && v.contains(b as usize));
        let i = v.index_of(a as usize);
        let j = v.index_of(b as usize);
        assert(v[i] == a && v[j] == b);
        assert(geometry::peer(v[i] as int, v[j] as int));
        assert(geometry::peer(v[j] as int, v[i] as int));
    }
    if exists|i: int, j: int|
        0 <= i < j < v.len() && geometry::peer(v[i] as int, v[j] as int) {
        let (i, j) = choose|i: int, j: int|
            0 <= i < j < v.len() && geometry::peer(v[i] as int, v[j] as int);
        assert(v.contains(v[i]) && v.contains(v[j]));
        assert(geometry::peer(v[i] as int, v[j] as int));
    }
}

fn sees_any(j: usize, v: &Vec<usize>, Ghost(c): Ghost<Seq<Option<bool>>>, Ghost(shade): Ghost<
    bool,
>) -> (yes: bool)
    requires
        j < 81,
        forall|k: int| 0 <= k < v@.len() ==> #[trigger] v@[k] < 81,
        forall|i: usize| #[trigger] v@.contains(i) <==> i < 81 && c[i as int] == Some(shade),
    ensures
        yes == sees(c, shade, j as int),
{
    let mut k: usize = 0;
    while k < v.len()
        invariant
            k <= v@.len(),
            j < 81,
            forall|n: int| 0 <= n < v@.len() ==> #[trigger] v@[n] < 81,
            forall|i: usize| #[trigger] v@.contains(i) <==> i < 81 && c[i as int] == Some(shade),
            forall|n: int| 0 <= n < k ==> !geometry::peer(j as int, #[trigger] v@[n] as int),
        decreases v@.len() - k,
    {
        if geometry::is_peer(j, v[k]) {
            assert(v@.contains(v@[k as int]));
            assert(geometry::peer(j as int, v@[k as int] as int));
            return true;
        }
        k = k + 1;
    }
    proof {
        assert forall|i: int| 0 <= i < 81 && c[i] == Some(shade) implies !#[trigger] geometry::peer(
            j as int,
            i,
        ) by {
            assert(v@.contains(i as usize));
            let n = v@.index_of(i as usize);
            assert(v@[n] == i);
        }
    }
    false
}

fn count_coloured(c: &Vec<Option<bool>>) -> (n: usize)
    ensures
        n == coloured(c@),
{
    let mut n: usize = 0;
    let mut k: usize = 0;
    while k < c.len()
        invariant
            k <= c@.len(),
            n <= k,
            n == coloured(c@.take(k as int)),
        decreases c@.len() - k,
    {
        assert(c@.take(k + 1).drop_last() =~= c@.take(k as int));
        if c[k].is_some() {
            n = n + 1;
        }
        k = k + 1;
    }
    assert(c@.take(c@.len() as int) =~= c@);
    n
}

/// The cells that a colouring rules out.
fn chain_victims(c: &Vec<Option<bool>>) -> (victims: Vec<usize>)
    requires
        c@.len() == 81,
    ensures
        forall|k: int| 0 <= k < victims@.len() ==> #[trigger] victims@[k] < 81,
        forall|j: usize| #[trigger] victims@.contains(j) <==> j < 81 && chain_hits(c@, j as int),
{
    let enough = count_coloured(c) >= 3;
    let yes_cells = cells_of(c, true);
    let no_cells = cells_of(c, false);
    let yes_dead = geometry::has_peer_pair(yes_cells.as_slice());
    let no_dead = geometry::has_peer_pair(no_cells.as_slice());
    proof {
        lemma_dead(c@, true, yes_cells@);
        lemma_dead(c@, false, no_cells@);
    }
    let mut victims: Vec<usize> = Vec::new();
    let mut j: usize = 0;
    while j < CELLS
        invariant
            j <= 81,
            c@.len() == 81,
            enough == (coloured(c@) >= 3),
            yes_dead == dead(c@, true),
            no_dead == dead(c@, false),
            forall|k: int| 0 <= k < yes_cells@.len() ==> #[trigger] yes_cells@[k] < 81,
            forall|i: usize| #[trigger]
                yes_cells@.contains(i) <==> i < 81 && c@[i as int] == Some(true),
            forall|k: int| 0 <= k < no_cells@.len() ==> #[trigger] no_cells@[k] < 81,
            forall|i: usize| #[trigger]
                no_cells@.contains(i) <==> i < 81 && c@[i as int] == Some(false),
            forall|k: int| 0 <= k < victims@.len() ==> #[trigger] victims@[k] < j,
            forall|i: usize| #[trigger]
                victims@.contains(i) <==> i < j && chain_hits(c@, i as int),
        decreases 81 - j,
    {
        let ghost before = victims@;
        let hit = enough && if yes_dead || no_dead {
            match c[j] {
                Some(b) => if b {
                    yes_dead
                } else {
                    no_dead
                },
                None => false,
            }
        } else {
            c[j].is_none() && sees_any(j, &yes_cells, Ghost(c@), Ghost(true)) && sees_any(
                j,
                &no_cells,
                Ghost(c@),
                Ghost(false),
            )
        };
        if hit {
            victims.push(j);
        }
        proof {
            solver::lemma_push_members(before, j);
        }
        j = j + 1;
    }
    victims
}

impl Solver {
    fn chain_digit(&mut self, d: u8) -> (progressed: bool)
        requires
            grid::wf(old(self)@),
            1 <= d <= 9,
        ensures
            final(self)@ == chain_at(old(self)@, d),
            progressed == (final(self)@ != old(self)@),
    {
        let ghost g = self@;
        let ls = strong_links(self, d);
        if ls.len() < 2 {
            return false;
        }
        let strings = self.string_victims(d);
        proof {
            lemma_links(g, d, 27);
            mask::lemma_mask_consts(d);
            grid::lemma_without_is(g, chain_gone(ls@, d, 0), g);
        }
        let mut seen: Vec<bool> = Vec::new();
        while seen.len() < CELLS
            invariant
                seen@.len() <= 81,
                forall|i: int| 0 <= i < seen@.len() ==> !(#[trigger] seen@[i]),
            decreases 81 - seen@.len(),
        {
            seen.push(false);
        }
        let mut progressed = false;
        let mut start: usize = 0;
        while start < CELLS
            invariant
                start <= 81,
                1 <= d <= 9,
                g == old(self)@,
                grid::wf(g),
                grid::follows(g, self@),
                on_board(ls@),
                seen@.len() == 81,
                forall|i: int|
                    0 <= i < 81 ==> #[trigger] seen@[i] == visited(ls@, start as nat).contains(i),
                mask::digits_of(1u16 << d) == set![d],
                self@ == grid::without(g, chain_gone(ls@, d, start as int)),
                progressed == (self@ != g),
            decreases 81 - start,
        {
            let ghost h = self@;
            let root = !seen[start] && has_node(&ls, start);
            assert(root == is_root(ls@, start as int));
            if root {
                let colour = colour_from(&ls, start);
                let victims = chain_victims(&colour);
                if self.strike(&victims, 1u16 << d) {
                    progressed = true;
                }
                let ghost seen0 = seen@;
                let mut i: usize = 0;
                while i < CELLS
                    invariant
                        i <= 81,
                        colour@.len() == 81,
                        seen0.len() == 81,
                        seen@.len() == 81,
                        forall|j: int|
                            0 <= j < 81 ==> #[trigger] seen@[j] == (seen0[j] || (j < i
                                && colour@[j] is Some)),
                    decreases 81 - i,
                {
                    if colour[i].is_some() {
                        seen[i] = true;
                    }
                    i = i + 1;
                }
                proof {
                    grid::lemma_without(h, solver::hits(victims@, set![d]));
                    grid::lemma_chain(g, h, self@);
                    let next = chain_gone(ls@, d, start + 1);
                    let prev = chain_gone(ls@, d, start as int);
                    assert forall|j: int, e: u8| 0 <= j < 81 implies #[trigger] self@.cands[j].contains(
                        e,
                    ) == (g.cands[j].contains(e) && !next(j, e)) by {
                        assert(h.cands[j].contains(e) == (g.cands[j].contains(e) && !prev(j, e)));
                        assert(victims@.contains(j as usize) == chain_hits(colour@, j));
                        lemma_chain_gone_step(ls@, d, start as int, j, e);
                    }
                    grid::lemma_without_is(g, next, self@);
                }
            } else {
                proof {
                    let next = chain_gone(ls@, d, start + 1);
                    let prev = chain_gone(ls@, d, start as int);
                    assert forall|j: int, e: u8| 0 <= j < 81 && g.cands[j].contains(e) implies prev(
                        j,
                        e,
                    ) == #[trigger] next(j, e) by {
                        lemma_chain_gone_step(ls@, d, start as int, j, e);
                    }
                    grid::lemma_same_gone(g, prev, next);
                }
            }
            start = start + 1;
        }
        let ghost h = self@;
        proof {
            let gone = kites::kite_gone(g, d);
            assert forall|j: int, e: u8| 0 <= j < 81 && h.cands[j].contains(e) implies solver::hits(
                strings@,
                set![d],
            )(j, e) == #[trigger] gone(j, e) by {
                assert(strings@.contains(j as usize) == kites::some_hit(g, d, 18, j));
            }
            grid::lemma_same_gone(h, solver::hits(strings@, set![d]), gone);
            grid::lemma_without(h, gone);
            grid::lemma_chain(g, h, grid::without(h, gone));
        }
        if self.strike(&strings, 1u16 << d) {
            progressed = true;
        }
        progressed
    }

    /// Single-digit chains built from strong links. Two cells of one colour that
    /// see each other rule that colour out; else a cell that sees both colours
    /// cannot hold the digit. And where two lines form a Skyscraper or a Two-String
    /// Kite, a cell that sees both outer ends cannot hold it either.
    pub fn apply_single_digit_chains(&mut self) -> (progressed: bool)
        requires
            grid::wf(old(self)@),
        ensures
            final(self)@ == single_digit_chains(old(self)@),
            progressed == (final(self)@ != old(self)@),
            grid::follows(old(self)@, final(self)@),
    {
        let ghost g = self@;
        let mut progressed = false;
        let mut k: u8 = 0;
        while k < 9
            invariant
                k <= 9,
                g == old(self)@,
                grid::wf(g),
                grid::follows(g, self@),
                self@ == grid::sweep(g, k as nat, chain_step()),
                progressed == (self@ != g),
            decreases 9 - k,
        {
            let ghost h = self@;
            proof {
                lemma_chain_at(h, (k + 1) as u8);
                grid::lemma_chain(g, h, chain_at(h, (k + 1) as u8));
            }
            if self.chain_digit(k + 1) {
                progressed = true;
            }
            k = k + 1;
        }
        progressed
    }
}

proof fn lemma_chain_gone_step(ls: Seq<Link>, d: u8, n: int, j: int, e: u8)
    requires
        0 <= n < 81,
    ensures
        chain_gone(ls, d, n + 1)(j, e) == (chain_gone(ls, d, n)(j, e) || (e == d && is_root(ls, n)
            && chain_hits(colours(ls, n as usize), j))),
{
    if chain_gone(ls, d, n)(j, e) {
        let s = choose|s: int|
            0 <= s < n && #[trigger] is_root(ls, s) && chain_hits(colours(ls, s as usize), j);
        assert(is_root(ls, s) && chain_hits(colours(ls, s as usize), j));
    }
}

} // verus!
