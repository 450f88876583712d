//! Skyscraper and Two-String Kite: two strong links of a digit along rows and columns.
//!
//! A line, a row or a column, with just two spots for a digit is a string. Where two
//! strings are joined at one end, one of their other ends holds the digit.

use crate::board::CELLS;
use crate::chains;
use crate::chains::Link;
use crate::geometry;
use crate::grid;
use crate::grid::Grid;
use crate::seqs;
use crate::solver;
use crate::solver::Solver;
use crate::spots;
use vstd::prelude::*;

verus! {

/// The two spots for `d` in unit `u`, where there are just two.
pub open spec fn string_of(g: Grid, d: u8, u: int) -> Option<Link> {
    let s = spots::spots(g, u, d);
    if s.len() == 2 {
        Some((s[0], s[1]))
    } else {
        None
    }
}

/// Skyscraper: two rows whose strings have an end in the same column, and the other
/// ends in different ones; or two columns, likewise. The string of unit `u` runs from
/// `a` to `b`, and that of unit `v` from `c` to `e`.
pub open spec fn is_skyscraper(u: int, v: int, a: int, b: int, c: int, e: int) -> bool {
    ||| u < 9 && v < 9 && u != v && geometry::col(b) == geometry::col(c) && geometry::col(a)
        != geometry::col(e)
    ||| u >= 9 && v >= 9 && u != v && geometry::row(b) == geometry::row(c) && geometry::row(a)
        != geometry::row(e)
}

/// Two-String Kite: a row and a column whose strings meet in a box, with an end of each
/// in it, at different cells, and the other ends outside.
pub open spec fn is_kite(u: int, v: int, a: int, b: int, c: int, e: int) -> bool {
    &&& u < 9
    &&& v >= 9
    &&& b != c
    &&& geometry::box_no(b) == geometry::box_no(c)
    &&& geometry::box_no(a) != geometry::box_no(b)
    &&& geometry::box_no(e) != geometry::box_no(c)
}

/// The strings are joined at `b` and `c`, and cell `j` sees both other ends.
pub open spec fn is_caught(
    u: int,
    v: int,
    a: usize,
    b: usize,
    c: usize,
    e: usize,
    j: int,
) -> bool {
    &&& is_skyscraper(u, v, a as int, b as int, c as int, e as int) || is_kite(
        u,
        v,
        a as int,
        b as int,
        c as int,
        e as int,
    )
    &&& geometry::peer(j, a as int)
    &&& geometry::peer(j, e as int)
}

/// The strings `l` and `k` rule the digit out in cell `j`, turned round in some way.
pub open spec fn strings_hit(u: int, v: int, l: Link, k: Link, j: int) -> bool {
    ||| is_caught(u, v, l.0, l.1, k.0, k.1, j)
    ||| is_caught(u, v, l.0, l.1, k.1, k.0, j)
    ||| is_caught(u, v, l.1, l.0, k.0, k.1, j)
    ||| is_caught(u, v, l.1, l.0, k.1, k.0, j)
}

/// The strings of the lines `u` and `v` rule `d` out in cell `j`.
pub open spec fn lines_hit(g: Grid, d: u8, u: int, v: int, j: int) -> bool {
    match (string_of(g, d, u), string_of(g, d, v)) {
        (Some(l), Some(k)) => strings_hit(u, v, l, k, j),
        _ => false,
    }
}

/// Line `u` and one of the first `n` lines rule `d` out in cell `j`.
pub open spec fn line_hits(g: Grid, d: u8, u: int, n: int, j: int) -> bool {
    exists|v: int| 0 <= v < n && #[trigger] lines_hit(g, d, u, v, j)
}

/// One of the first `n` lines and another line rule `d` out in cell `j`.
pub open spec fn some_hit(g: Grid, d: u8, n: int, j: int) -> bool {
    exists|u: int| 0 <= u < n && #[trigger] line_hits(g, d, u, 18, j)
}

/// Digit `d` in the cells that two strings rule out.
pub open spec fn kite_gone(g: Grid, d: u8) -> spec_fn(int, u8) -> bool {
    |j: int, e: u8| e == d && some_hit(g, d, 18, j)
}

/// The ends of a string are different cells of its line.
proof fn lemma_string(g: Grid, d: u8, u: int)
    requires
        0 <= u < 18,
    ensures
        string_of(g, d, u) matches Some(l) ==> l.0 < 81 && l.1 < 81 && geometry::in_unit(
            u,
            l.0 as int,
        ) && geometry::in_unit(u, l.1 as int) && chains::is_pair(g, d, u, l),
{
    spots::lemma_spots(g, u, d);
    let s = spots::spots(g, u, d);
    if s.len() == 2 {
        assert(s[0] < 81 && s[1] < 81);
    }
}

/// Joined ends see each other.
proof fn lemma_joined_ends(u: int, v: int, a: usize, b: usize, c: usize, e: usize, j: int)
    requires
        0 <= u < 18,
        0 <= v < 18,
        geometry::in_unit(u, b as int),
        geometry::in_unit(v, c as int),
        is_caught(u, v, a, b, c, e, j),
    ensures
        geometry::peer(b as int, c as int),
{
}

/// Two strings hit no cell that has the digit in a solution: one of their outer ends
/// has it.
pub proof fn lemma_some_hit(g: Grid, f: Seq<u8>, d: u8, j: int)
    requires
        grid::wf(g),
        grid::fits(g, f),
        1 <= d <= 9,
        0 <= j < 81,
        f[j] == d,
    ensures
        !some_hit(g, d, 18, j),
{
    if some_hit(g, d, 18, j) {
        let u = choose|u: int| 0 <= u < 18 && #[trigger] line_hits(g, d, u, 18, j);
        let v = choose|v: int| 0 <= v < 18 && #[trigger] lines_hit(g, d, u, v, j);
        lemma_string(g, d, u);
        lemma_string(g, d, v);
        let l = string_of(g, d, u)->0;
        let k = string_of(g, d, v)->0;
        assert(chains::is_pair(g, d, u, l) && chains::is_pair(g, d, v, k));
        chains::lemma_strong_link(g, f, d, l);
        chains::lemma_strong_link(g, f, d, k);
        if is_caught(u, v, l.0, l.1, k.0, k.1, j) {
            lemma_joined_ends(u, v, l.0, l.1, k.0, k.1, j);
        } else if is_caught(u, v, l.0, l.1, k.1, k.0, j) {
            lemma_joined_ends(u, v, l.0, l.1, k.1, k.0, j);
        } else if is_caught(u, v, l.1, l.0, k.0, k.1, j) {
            lemma_joined_ends(u, v, l.1, l.0, k.0, k.1, j);
        } else {
            lemma_joined_ends(u, v, l.1, l.0, k.1, k.0, j);
        }
    }
}

/// Grids that are the same as far as `d` goes have the same strings for it.
pub proof fn lemma_same_hits(g: Grid, h: Grid, d: u8, j: int)
    requires
        chains::same_for(g, h, d),
    ensures
        some_hit(g, d, 18, j) ==> some_hit(h, d, 18, j),
{
    if some_hit(g, d, 18, j) {
        let u = choose|u: int| 0 <= u < 18 && #[trigger] line_hits(g, d, u, 18, j);
        let v = choose|v: int| 0 <= v < 18 && #[trigger] lines_hit(g, d, u, v, j);
        geometry::lemma_unit(u);
        geometry::lemma_unit(v);
        seqs::lemma_filter_agree(geometry::unit(u), spots::is_spot(h, d), spots::is_spot(g, d));
        seqs::lemma_filter_agree(geometry::unit(v), spots::is_spot(h, d), spots::is_spot(g, d));
        assert(lines_hit(h, d, u, v, j));
        assert(line_hits(h, d, u, 18, j));
    }
}

/// The only two spots for `d` in line `u` are `a` and `b`.
pub open spec fn is_string(g: Grid, d: u8, u: int, a: usize, b: usize) -> bool {
    string_of(g, d, u) == Some((a, b)) || string_of(g, d, u) == Some((b, a))
}

/// Single-digit chains find Skyscraper and Two-String Kite: the digit goes from every
/// cell that sees both outer ends.
pub proof fn law_skyscraper_and_kite(
    g: Grid,
    d: u8,
    u: int,
    v: int,
    a: usize,
    b: usize,
    c: usize,
    e: usize,
    j: int,
)
    requires
        grid::wf(g),
        1 <= d <= 9,
        0 <= u < 18,
        0 <= v < 18,
        0 <= j < 81,
        is_string(g, d, u, a, b),
        is_string(g, d, v, c, e),
        is_caught(u, v, a, b, c, e, j),
    ensures
        !chains::single_digit_chains(g).cands[j].contains(d),
{
    assert(lines_hit(g, d, u, v, j));
    assert(line_hits(g, d, u, 18, j));
    assert(some_hit(g, d, 18, j));
    assert(u != v);
    chains::lemma_two_links(g, d, u, v);
    chains::lemma_struck(g, d, j);
}

// ---- Execution ----

/// Marks the cells that see both `a` and `b`.
fn mark_common(marks: &mut Vec<bool>, a: usize, b: usize)
    requires
        old(marks)@.len() == 81,
    ensures
        final(marks)@.len() == 81,
        forall|j: int|
            0 <= j < 81 ==> #[trigger] final(marks)@[j] == (old(marks)@[j] || (geometry::peer(
                j,
                a as int,
            ) && geometry::peer(j, b as int))),
{
    let ghost before = marks@;
    let mut j: usize = 0;
    while j < CELLS
        invariant
            j <= 81,
            before.len() == 81,
            marks@.len() == 81,
            forall|i: int|
                0 <= i < 81 ==> #[trigger] marks@[i] == (before[i] || (i < j && geometry::peer(
                    i,
                    a as int,
                ) && geometry::peer(i, b as int))),
        decreases 81 - j,
    {
        if geometry::is_peer(j, a) && geometry::is_peer(j, b) {
            marks[j] = true;
        }
        j = j + 1;
    }
}

/// Whether the strings from `a` to `b` and from `c` to `e` are joined at `b` and `c`.
fn are_joined(u: usize, v: usize, a: usize, b: usize, c: usize, e: usize) -> (yes: bool)
    ensures
        yes == (is_skyscraper(u as int, v as int, a as int, b as int, c as int, e as int)
            || is_kite(u as int, v as int, a as int, b as int, c as int, e as int)),
{
    if u < 9 && v < 9 {
        u != v && b % 9 == c % 9 && a % 9 != e % 9
    } else if u >= 9 && v >= 9 {
        u != v && b / 9 == c / 9 && a / 9 != e / 9
    } else if u < 9 {
        let meet = geometry::box_of(b);
        b != c && meet == geometry::box_of(c) && geometry::box_of(a) != meet && geometry::box_of(e)
            != meet
    } else {
        false
    }
}

/// Marks the cells that two strings rule out.
fn mark_hits(marks: &mut Vec<bool>, u: usize, v: usize, l: Link, k: Link)
    requires
        old(marks)@.len() == 81,
    ensures
        final(marks)@.len() == 81,
        forall|j: int|
            0 <= j < 81 ==> #[trigger] final(marks)@[j] == (old(marks)@[j] || strings_hit(
                u as int,
                v as int,
                l,
                k,
                j,
            )),
{
    if are_joined(u, v, l.0, l.1, k.0, k.1) {
        mark_common(marks, l.0, k.1);
    }
    if are_joined(u, v, l.0, l.1, k.1, k.0) {
        mark_common(marks, l.0, k.0);
    }
    if are_joined(u, v, l.1, l.0, k.0, k.1) {
        mark_common(marks, l.1, k.1);
    }
    if are_joined(u, v, l.1, l.0, k.1, k.0) {
        mark_common(marks, l.1, k.0);
    }
}

impl Solver {
    /// The string of each line.
    fn strings(&self, d: u8) -> (strings: Vec<Option<Link>>)
        requires
            d < 16,
        ensures
            strings@.len() == 18,
            forall|u: int| 0 <= u < 18 ==> #[trigger] strings@[u] == string_of(self@, d, u),
    {
        let mut strings: Vec<Option<Link>> = Vec::new();
        let mut u: usize = 0;
        while u < 18
            invariant
                u <= 18,
                d < 16,
                strings@.len() == u,
                forall|w: int| 0 <= w < u ==> #[trigger] strings@[w] == string_of(self@, d, w),
            decreases 18 - u,
        {
            let s = self.spots(u, d);
            strings.push(
                if s.len() == 2 {
                    Some((s[0], s[1]))
                } else {
                    None
                },
            );
            u = u + 1;
        }
        strings
    }

    /// The cells that two strings rule out.
    pub(crate) fn string_victims(&self, d: u8) -> (victims: Vec<usize>)
        requires
            d < 16,
        ensures
            forall|k: int| 0 <= k < victims@.len() ==> #[trigger] victims@[k] < 81,
            forall|j: usize| #[trigger]
                victims@.contains(j) <==> j < 81 && some_hit(self@, d, 18, j as int),
    {
        let ghost g = self@;
        let strings = self.strings(d);
        let mut marks: Vec<bool> = Vec::new();
        while marks.len() < CELLS
            invariant
                marks@.len() <= 81,
                forall|i: int| 0 <= i < marks@.len() ==> !(#[trigger] marks@[i]),
            decreases 81 - marks@.len(),
        {
            marks.push(false);
        }
        let mut u: usize = 0;
        while u < 18
            invariant
                u <= 18,
                strings@.len() == 18,
                forall|w: int| 0 <= w < 18 ==> #[trigger] strings@[w] == string_of(g, d, w),
                marks@.len() == 81,
                forall|j: int| 0 <= j < 81 ==> #[trigger] marks@[j] == some_hit(g, d, u as int, j),
            decreases 18 - u,
        {
            let ghost before = marks@;
            let mut v: usize = 0;
            while v < 18
                invariant
                    u < 18,
                    v <= 18,
                    strings@.len() == 18,
                    forall|w: int| 0 <= w < 18 ==> #[trigger] strings@[w] == string_of(g, d, w),
                    marks@.len() == 81,
                    before.len() == 81,
                    forall|j: int|
                        0 <= j < 81 ==> #[trigger] marks@[j] == (before[j] || line_hits(
                            g,
                            d,
                            u as int,
                            v as int,
                            j,
                        )),
                decreases 18 - v,
            {
                let ghost earlier = marks@;
                if let Some(l) = strings[u] {
                    if let Some(k) = strings[v] {
                        mark_hits(&mut marks, u, v, l, k);
                    }
                }
                proof {
                    assert forall|j: int| 0 <= j < 81 implies #[trigger] marks@[j] == (before[j]
                        || line_hits(g, d, u as int, v + 1, j)) by {
                        assert(earlier[j] == (before[j] || line_hits(
                            g,
                            d,
                            u as int,
                            v as int,
                            j,
                        )));
                        assert(marks@[j] == (earlier[j] || lines_hit(g, d, u as int, v as int, j)));
                        if line_hits(g, d, u as int, v as int, j) {
                            let w = choose|w: int|
                                0 <= w < v && #[trigger] lines_hit(g, d, u as int, w, j);
                            assert(lines_hit(g, d, u as int, w, j));
                        }
                    }
                }
                v = v + 1;
            }
            proof {
                assert forall|j: int| 0 <= j < 81 implies #[trigger] marks@[j] == some_hit(
                    g,
                    d,
                    u + 1,
                    j,
                ) by {
                    assert(before[j] == some_hit(g, d, u as int, j));
                    if some_hit(g, d, u as int, j) {
                        let w = choose|w: int| 0 <= w < u && #[trigger] line_hits(g, d, w, 18, j);
                        assert(line_hits(g, d, w, 18, j));
                    }
                    if line_hits(g, d, u as int, 18, j) {
                        assert(some_hit(g, d, u + 1, j));
                    }
                }
            }
            u = u + 1;
        }
        let mut victims: Vec<usize> = Vec::new();
        let mut j: usize = 0;
        while j < CELLS
            invariant
                j <= 81,
                marks@.len() == 81,
                forall|i: int| 0 <= i < 81 ==> #[trigger] marks@[i] == some_hit(g, d, 18, i),
                forall|k: int| 0 <= k < victims@.len() ==> #[trigger] victims@[k] < j,
                forall|i: usize| #[trigger]
                    victims@.contains(i) <==> i < j && some_hit(g, d, 18, i as int),
            decreases 81 - j,
        {
            let ghost before = victims@;
            if marks[j] {
                victims.push(j);
            }
            proof {
                solver::lemma_push_members(before, j);
            }
            j = j + 1;
        }
        victims
    }
}

} // verus!
