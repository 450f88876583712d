//! What the colouring of a group of linked cells is: the cells that a path of links
//! leads to, coloured in turns.

use crate::chains;
use crate::chains::{Link, Walk};
use vstd::prelude::*;

verus! {

// ---- Which cells have a colour ----

/// A link joins cell `k` of the path to the next.
pub open spec fn is_step(ls: Seq<Link>, p: Seq<usize>, k: int) -> bool {
    chains::joined(ls, p[k], p[k + 1])
}

/// Each cell of the path is joined to the next by a link.
pub open spec fn is_path(ls: Seq<Link>, p: Seq<usize>) -> bool {
    p.len() > 0 && forall|k: int| 0 <= k < p.len() - 1 ==> #[trigger] is_step(ls, p, k)
}

/// A path of links leads from `a` to `b`.
pub open spec fn linked(ls: Seq<Link>, a: usize, b: usize) -> bool {
    exists|p: Seq<usize>| #[trigger] is_path(ls, p) && p[0] == a && p.last() == b
}

proof fn lemma_linked_on(ls: Seq<Link>, a: usize, b: usize, c: usize)
    requires
        linked(ls, a, b),
        chains::joined(ls, b, c),
    ensures
        linked(ls, a, c),
{
    let p = choose|p: Seq<usize>| #[trigger] is_path(ls, p) && p[0] == a && p.last() == b;
    let q = p.push(c);
    assert forall|k: int| 0 <= k < q.len() - 1 implies #[trigger] is_step(ls, q, k) by {
        if k < p.len() - 1 {
            assert(is_step(ls, p, k));
        }
    }
    assert(is_path(ls, q));
}

/// What holds of every coloured cell and of the cells to be painted holds of every
/// coloured cell afterwards.
pub proof fn lemma_paint_keeps(
    w: Walk,
    ns: Seq<usize>,
    shade: bool,
    good: spec_fn(int, Option<bool>) -> bool,
)
    requires
        w.colour.len() == 81,
        forall|i: int|
            #![trigger w.colour[i]]
            0 <= i < 81 && w.colour[i] is Some ==> good(i, w.colour[i]),
        forall|k: int| 0 <= k < ns.len() ==> #[trigger] ns[k] < 81 && good(ns[k] as int, Some(shade)),
    ensures
        chains::paint(w, ns, shade).colour.len() == 81,
        forall|i: int|
            #![trigger chains::paint(w, ns, shade).colour[i]]
            0 <= i < 81 && chains::paint(w, ns, shade).colour[i] is Some ==> good(
                i,
                chains::paint(w, ns, shade).colour[i],
            ),
    decreases ns.len(),
{
    if ns.len() > 0 {
        lemma_paint_keeps(w, ns.drop_last(), shade, good);
        assert(ns[ns.len() - 1] < 81);
    }
}

/// The cells that a walk has coloured are linked to its start.
proof fn lemma_walk_linked(ls: Seq<Link>, start: usize, n: nat)
    requires
        chains::on_board(ls),
        start < 81,
    ensures
        forall|i: int|
            #![trigger chains::walk(ls, start, n).colour[i]]
            0 <= i < 81 && chains::walk(ls, start, n).colour[i] is Some ==> linked(
                ls,
                start,
                i as usize,
            ),
    decreases n,
{
    if n == 0 {
        assert(is_path(ls, seq![start]));
        assert(linked(ls, start, start));
    } else {
        let m = (n - 1) as nat;
        lemma_walk_linked(ls, start, m);
        chains::lemma_walk(ls, start, m);
        let w = chains::walk(ls, start, m);
        if w.stack.len() > 0 {
            let c = w.stack.last();
            let ns = chains::neighbours(ls, c);
            assert(w.stack[w.stack.len() - 1] == c);
            chains::lemma_neighbours(ls, c);
            let good = |i: int, s: Option<bool>| linked(ls, start, i as usize);
            assert forall|k: int| 0 <= k < ns.len() implies #[trigger] ns[k] < 81 && linked(
                ls,
                start,
                ns[k],
            ) by {
                lemma_linked_on(ls, start, c, ns[k]);
            }
            lemma_paint_keeps(
                Walk { stack: w.stack.drop_last(), colour: w.colour },
                ns,
                w.colour[c as int] != Some(true),
                good,
            );
        }
    }
}

/// Every cell of a path from the start has a colour.
proof fn lemma_path_coloured(ls: Seq<Link>, start: usize, p: Seq<usize>, n: int)
    requires
        chains::on_board(ls),
        start < 81,
        is_path(ls, p),
        p[0] == start,
        0 <= n < p.len(),
    ensures
        p[n] < 81,
        chains::colours(ls, start)[p[n] as int] is Some,
    decreases n,
{
    if n == 0 {
        chains::law_groups_are_complete(ls, start, start, start);
    } else {
        lemma_path_coloured(ls, start, p, n - 1);
        assert(is_step(ls, p, n - 1));
        let (a, b) = (p[n - 1], p[n]);
        let m = choose|m: int| 0 <= m < ls.len() && (#[trigger] ls[m] == (a, b) || ls[m] == (b, a));
        assert(ls[m].0 < 81 && ls[m].1 < 81);
        chains::law_groups_are_complete(ls, start, a, b);
    }
}

/// A group is all that is linked to its start: a cell has a colour exactly where a path
/// of links leads to it.
pub proof fn law_group_is_what_is_linked(ls: Seq<Link>, start: usize, i: usize)
    requires
        chains::on_board(ls),
        start < 81,
        i < 81,
    ensures
        chains::colours(ls, start)[i as int] is Some <==> linked(ls, start, i),
{
    lemma_walk_linked(ls, start, 81);
    if linked(ls, start, i) {
        let p = choose|p: Seq<usize>| #[trigger] is_path(ls, p) && p[0] == start && p.last() == i;
        lemma_path_coloured(ls, start, p, p.len() - 1);
    }
}

// ---- Which colour they have ----

/// `t` gives the ends of every link in the group of `start` different colours.
pub open spec fn splits(ls: Seq<Link>, start: usize, t: Seq<bool>) -> bool {
    &&& t.len() == 81
    &&& forall|a: usize, b: usize|
        linked(ls, start, a) && #[trigger] chains::joined(ls, a, b) ==> t[a as int] != t[b as int]
}

proof fn lemma_walk_alternates(ls: Seq<Link>, start: usize, t: Seq<bool>, n: nat)
    requires
        chains::on_board(ls),
        start < 81,
        splits(ls, start, t),
    ensures
        forall|i: int|
            #![trigger chains::walk(ls, start, n).colour[i]]
            0 <= i < 81 && chains::walk(ls, start, n).colour[i] is Some
                ==> chains::walk(ls, start, n).colour[i] == Some(t[i] == t[start as int]),
    decreases n,
{
    if n > 0 {
        let m = (n - 1) as nat;
        lemma_walk_alternates(ls, start, t, m);
        lemma_walk_linked(ls, start, m);
        chains::lemma_walk(ls, start, m);
        let w = chains::walk(ls, start, m);
        if w.stack.len() > 0 {
            let c = w.stack.last();
            let ns = chains::neighbours(ls, c);
            let shade = w.colour[c as int] != Some(true);
            assert(w.stack[w.stack.len() - 1] == c);
            assert(w.colour[c as int] == Some(t[c as int] == t[start as int]));
            chains::lemma_neighbours(ls, c);
            let good = |i: int, s: Option<bool>| s == Some(t[i] == t[start as int]);
            assert forall|k: int| 0 <= k < ns.len() implies #[trigger] ns[k] < 81 && good(
                ns[k] as int,
                Some(shade),
            ) by {
                assert(chains::joined(ls, c, ns[k]));
                assert(t[c as int] != t[ns[k] as int]);
            }
            lemma_paint_keeps(
                Walk { stack: w.stack.drop_last(), colour: w.colour },
                ns,
                shade,
                good,
            );
        }
    }
}

/// Where a group can be split into two colours at all, its colouring is that split:
/// the start has the colour `true`, and linked cells have opposite colours.
pub proof fn law_linked_cells_have_opposite_colours(
    ls: Seq<Link>,
    start: usize,
    t: Seq<bool>,
    a: usize,
    b: usize,
)
    requires
        chains::on_board(ls),
        start < 81,
        splits(ls, start, t),
        linked(ls, start, a),
        chains::joined(ls, a, b),
    ensures
        chains::colours(ls, start)[start as int] == Some(true),
        chains::colours(ls, start)[a as int] == Some(t[a as int] == t[start as int]),
        chains::colours(ls, start)[b as int] == Some(t[b as int] == t[start as int]),
        chains::colours(ls, start)[a as int] != chains::colours(ls, start)[b as int],
{
    let m = choose|m: int| 0 <= m < ls.len() && (#[trigger] ls[m] == (a, b) || ls[m] == (b, a));
    assert(ls[m].0 < 81 && ls[m].1 < 81);
    lemma_walk_alternates(ls, start, t, 81);
    law_group_is_what_is_linked(ls, start, a);
    chains::law_groups_are_complete(ls, start, a, b);
}

} // verus!
