//! When the unique rectangle has something to say.

use crate::grid;
use crate::grid::Grid;
use crate::rectangle;
use crate::technique_laws;
use crate::wing_patterns;
use vstd::prelude::*;

verus! {

/// `j`, `a` in its row, `b` in its column and `d` across are the corners of a rectangle
/// in two boxes: the two rows are in one band, or the two columns in one stack, but not
/// both.
pub open spec fn are_corners(j: int, a: int, b: int, d: int) -> bool {
    &&& 0 <= j < 81 && 0 <= a < 81 && 0 <= b < 81 && 0 <= d < 81
    &&& j / 9 == a / 9
    &&& b / 9 == d / 9
    &&& j % 9 == b % 9
    &&& a % 9 == d % 9
    &&& j / 9 != b / 9
    &&& j % 9 != a % 9
    &&& (j / 27 == b / 27) != (j % 9 / 3 == a % 9 / 3)
}

/// Three corners can become `x` or `y` and nothing else; the fourth, `j`, can become
/// both, and something else too.
pub open spec fn is_deadly(g: Grid, j: int, x: u8, a: int, b: int, d: int, y: u8) -> bool {
    &&& are_corners(j, a, b, d)
    &&& wing_patterns::has_two(g, a, x, y)
    &&& wing_patterns::has_two(g, b, x, y)
    &&& wing_patterns::has_two(g, d, x, y)
    &&& technique_laws::spot(g, j, x)
    &&& technique_laws::spot(g, j, y)
    &&& exists|z: u8| z != x && z != y && #[trigger] technique_laws::spot(g, j, z)
}

/// A unique rectangle rules `x` out in its corner `j`.
pub open spec fn rectangle_out() -> spec_fn(Grid, int, u8) -> bool {
    |g: Grid, j: int, x: u8|
        exists|a: int, b: int, d: int, y: u8| #[trigger] is_deadly(g, j, x, a, b, d, y)
}

/// The corners, seen from corner `n`.
proof fn lemma_corners(r1: int, r2: int, c1: int, c2: int, n: int) -> (abd: (int, int, int))
    requires
        0 <= r1 < r2 < 9,
        0 <= c1 < c2 < 9,
        (r1 / 3 == r2 / 3) != (c1 / 3 == c2 / 3),
        0 <= n < 4,
    ensures
        are_corners(rectangle::corners(r1, r2, c1, c2)[n], abd.0, abd.1, abd.2),
        forall|k: int|
            0 <= k < 4 && k != n ==> #[trigger] rectangle::corners(r1, r2, c1, c2)[k] == abd.0
                || rectangle::corners(r1, r2, c1, c2)[k] == abd.1 || rectangle::corners(
                r1,
                r2,
                c1,
                c2,
            )[k] == abd.2,
        exists|k: int| 0 <= k < 4 && k != n && #[trigger] rectangle::corners(r1, r2, c1, c2)[k] == abd.0,
        exists|k: int| 0 <= k < 4 && k != n && #[trigger] rectangle::corners(r1, r2, c1, c2)[k] == abd.1,
        exists|k: int| 0 <= k < 4 && k != n && #[trigger] rectangle::corners(r1, r2, c1, c2)[k] == abd.2,
{
    let cs = rectangle::corners(r1, r2, c1, c2);
    assert(cs[0] == r1 * 9 + c1 && cs[1] == r1 * 9 + c2 && cs[2] == r2 * 9 + c1 && cs[3] == r2 * 9
        + c2);
    assert(cs[0] / 27 == r1 / 3 && cs[1] / 27 == r1 / 3 && cs[2] / 27 == r2 / 3 && cs[3] / 27 == r2
        / 3);
    if n == 0 {
        assert(are_corners(cs[0], cs[1], cs[2], cs[3]));
        (cs[1], cs[2], cs[3])
    } else if n == 1 {
        assert(are_corners(cs[1], cs[0], cs[3], cs[2]));
        (cs[0], cs[3], cs[2])
    } else if n == 2 {
        assert(are_corners(cs[2], cs[3], cs[0], cs[1]));
        (cs[3], cs[0], cs[1])
    } else {
        assert(are_corners(cs[3], cs[2], cs[1], cs[0]));
        (cs[2], cs[1], cs[0])
    }
}

proof fn lemma_extra_strikes(
    g: Grid,
    r1: int,
    r2: int,
    c1: int,
    c2: int,
    n: int,
    j: int,
    e: u8,
)
    requires
        grid::wf(g),
        0 <= r1 < r2 < 9,
        0 <= c1 < c2 < 9,
        (r1 / 3 == r2 / 3) != (c1 / 3 == c2 / 3),
        0 <= n < 4,
        0 <= j < 81,
        grid::struck(g, rectangle::extra_step(rectangle::corners(r1, r2, c1, c2))(g, n), j, e),
    ensures
        rectangle_out()(g, j, e),
{
    let cs = rectangle::corners(r1, r2, c1, c2);
    let (a, b, d) = lemma_corners(r1, r2, c1, c2, n);
    let floor = g.cands[cs[(n + 1) % 4]];
    assert(rectangle::is_deadly(g, cs, n, floor));
    assert(rectangle::floor_gone(cs[n], floor)(j, e));
    assert(g.cands[a] == floor && g.cands[b] == floor && g.cands[d] == floor);
    let y = wing_patterns::lemma_other(g, a, e);
    assert(floor.contains(e) && floor.contains(y));
    assert(g.cands[b].contains(e) && g.cands[d].contains(e));
    assert(wing_patterns::has_two(g, b, e, y));
    assert(wing_patterns::has_two(g, d, e, y));
    assert(g.cands[j].contains(y));
    let all = g.cands[j];
    if forall|z: u8| #[trigger] all.contains(z) ==> floor.contains(z) {
        assert(floor =~= all);
    }
    let z = choose|z: u8| #[trigger] all.contains(z) && !floor.contains(z);
    assert(technique_laws::spot(g, j, z));
    assert(is_deadly(g, j, e, a, b, d, y));
}

/// The number of the step that looks at a rectangle.
proof fn lemma_number(r1: int, r2: int, c1: int, c2: int)
    requires
        0 <= r1 < 9,
        0 <= r2 < 9,
        0 <= c1 < 9,
        0 <= c2 < 9,
    ensures
        ({
            let k = 729 * r1 + 81 * r2 + 9 * c1 + c2;
            0 <= k < 6561 && k / 729 == r1 && k / 81 % 9 == r2 && k / 9 % 9 == c1 && k % 9 == c2
        }),
{
    let k = 729 * r1 + 81 * r2 + 9 * c1 + c2;
    assert(k / 9 == 81 * r1 + 9 * r2 + c1);
    assert(k / 81 == 9 * r1 + r2);
    assert(k / 729 == r1);
}

/// A cell by its row and its column.
proof fn lemma_place_of(j: int)
    requires
        0 <= j < 81,
    ensures
        j == 9 * (j / 9) + j % 9,
        0 <= j / 9 < 9,
        0 <= j % 9 < 9,
        j / 27 == j / 9 / 3,
{
}

/// The step that looks at a rectangle, and the corner of it that `j` is.
proof fn lemma_rectangle_of(j: int, a: int, b: int, d: int) -> (kn: (int, int))
    requires
        are_corners(j, a, b, d),
    ensures
        0 <= kn.0 < 6561,
        0 <= kn.1 < 4,
        ({
            let k = kn.0;
            let (r1, r2, c1, c2) = (k / 729, k / 81 % 9, k / 9 % 9, k % 9);
            let cs = rectangle::corners(r1, r2, c1, c2);
            &&& 0 <= r1 < r2 < 9
            &&& 0 <= c1 < c2 < 9
            &&& (r1 / 3 == r2 / 3) != (c1 / 3 == c2 / 3)
            &&& cs[kn.1] == j
            &&& forall|m: int|
                0 <= m < 4 && m != kn.1 ==> #[trigger] cs[m] == a || cs[m] == b || cs[m] == d
        }),
{
    lemma_place_of(j);
    lemma_place_of(a);
    lemma_place_of(b);
    lemma_place_of(d);
    lemma_oriented(j, j / 9, b / 9, j % 9, a % 9)
}

proof fn lemma_oriented(j: int, rj: int, rb: int, cj: int, ca: int) -> (kn: (int, int))
    requires
        0 <= rj < 9,
        0 <= rb < 9,
        0 <= cj < 9,
        0 <= ca < 9,
        rj != rb,
        cj != ca,
        (rj / 3 == rb / 3) != (cj / 3 == ca / 3),
        j == 9 * rj + cj,
    ensures
        0 <= kn.0 < 6561,
        0 <= kn.1 < 4,
        ({
            let k = kn.0;
            let (r1, r2, c1, c2) = (k / 729, k / 81 % 9, k / 9 % 9, k % 9);
            let cs = rectangle::corners(r1, r2, c1, c2);
            &&& 0 <= r1 < r2 < 9
            &&& 0 <= c1 < c2 < 9
            &&& (r1 / 3 == r2 / 3) != (c1 / 3 == c2 / 3)
            &&& cs[kn.1] == j
            &&& forall|m: int|
                0 <= m < 4 && m != kn.1 ==> #[trigger] cs[m] == 9 * rj + ca || cs[m] == 9 * rb + cj
                    || cs[m] == 9 * rb + ca
        }),
{
    let (r1, r2) = if rj < rb {
        (rj, rb)
    } else {
        (rb, rj)
    };
    let (c1, c2) = if cj < ca {
        (cj, ca)
    } else {
        (ca, cj)
    };
    let k = 729 * r1 + 81 * r2 + 9 * c1 + c2;
    lemma_number(r1, r2, c1, c2);
    let cs = rectangle::corners(r1, r2, c1, c2);
    assert(cs[0] == r1 * 9 + c1 && cs[1] == r1 * 9 + c2 && cs[2] == r2 * 9 + c1 && cs[3] == r2 * 9
        + c2);
    let n = if rj < rb {
        if cj < ca {
            0
        } else {
            1int
        }
    } else {
        if cj < ca {
            2
        } else {
            3int
        }
    };
    (k, n)
}

proof fn lemma_extra_found(g: Grid, cs: Seq<int>, n: int, j: int, x: u8, a: int, b: int, d: int, y: u8)
    requires
        grid::wf(g),
        is_deadly(g, j, x, a, b, d, y),
        cs.len() == 4,
        0 <= n < 4,
        cs[n] == j,
        forall|m: int| 0 <= m < 4 && m != n ==> #[trigger] cs[m] == a || cs[m] == b || cs[m] == d,
    ensures
        !rectangle::extra_step(cs)(g, n).cands[j].contains(x),
{
    let floor = g.cands[cs[(n + 1) % 4]];
    wing_patterns::lemma_has_two(g, a, x, y);
    wing_patterns::lemma_has_two(g, b, x, y);
    wing_patterns::lemma_has_two(g, d, x, y);
    let pair = Set::<u8>::empty().insert(x).insert(y);
    assert(floor == pair);
    let z = choose|z: u8| z != x && z != y && #[trigger] technique_laws::spot(g, j, z);
    assert(g.cands[j].contains(z) && !floor.contains(z));
    assert(floor.subset_of(g.cands[j]));
    assert(rectangle::is_deadly(g, cs, n, floor));
    let h = rectangle::extra_step(cs)(g, n);
    assert(rectangle::floor_gone(j, floor)(j, x));
    assert(!h.cands[j].contains(x));
}

/// Unique rectangles make progress exactly where three corners of a rectangle in two
/// boxes can become the same two digits and nothing else, and the fourth both of them and
/// another. They strike these two digits in that corner and nothing else, and place
/// nothing.
pub proof fn law_unique_rectangles(g: Grid)
    requires
        grid::wf(g),
    ensures
        rectangle::unique_rectangles(g).cells == g.cells,
        rectangle::unique_rectangles(g) != g <==> exists|j: int, x: u8|
            0 <= j < 81 && g.cands[j].contains(x) && #[trigger] rectangle_out()(g, j, x),
        forall|j: int, x: u8|
            0 <= j < 81 && #[trigger] grid::struck(g, rectangle::unique_rectangles(g), j, x)
                ==> grid::caused(g, rectangle::unique_rectangles(g), rectangle_out(), j, x),
{
    let step = rectangle::rectangle_step();
    let end = rectangle::unique_rectangles(g);
    rectangle::lemma_rectangle_step();
    assert forall|h: Grid, k: int| 0 <= k < 6561 && grid::wf(h) implies (
    #[trigger] step(h, k)).cells == h.cells by {
        let cs = rectangle::corners(k / 729, k / 81 % 9, k / 9 % 9, k % 9);
        rectangle::lemma_extra_step(cs);
        grid::lemma_sweep_cells(h, 4, rectangle::extra_step(cs));
    }
    grid::lemma_sweep_cells(g, 6561, step);
    grid::lemma_sweep_changes(g, 6561, step);
    if end != g {
        let k = choose|k: int| 0 <= k < 6561 && #[trigger] step(g, k) != g;
        let (r1, r2, c1, c2) = (k / 729, k / 81 % 9, k / 9 % 9, k % 9);
        let cs = rectangle::corners(r1, r2, c1, c2);
        let extra = rectangle::extra_step(cs);
        rectangle::lemma_extra_step(cs);
        grid::lemma_sweep_changes(g, 4, extra);
        let n = choose|n: int| 0 <= n < 4 && #[trigger] extra(g, n) != g;
        let (j, x) = grid::lemma_some_struck(g, extra(g, n));
        lemma_extra_strikes(g, r1, r2, c1, c2, n, j, x);
    }
    if exists|j: int, x: u8|
        0 <= j < 81 && g.cands[j].contains(x) && #[trigger] rectangle_out()(g, j, x) {
        let (j, x) = choose|j: int, x: u8|
            0 <= j < 81 && g.cands[j].contains(x) && #[trigger] rectangle_out()(g, j, x);
        let (a, b, d, y) = choose|a: int, b: int, d: int, y: u8| #[trigger]
            is_deadly(g, j, x, a, b, d, y);
        let (k, n) = lemma_rectangle_of(j, a, b, d);
        let (r1, r2, c1, c2) = (k / 729, k / 81 % 9, k / 9 % 9, k % 9);
        let cs = rectangle::corners(r1, r2, c1, c2);
        assert forall|m: int| #![trigger cs[m]] 0 <= m < 4 implies g.cells[cs[m]] == 0 by {
            assert(m != n ==> cs[m] == a || cs[m] == b || cs[m] == d);
        }
        assert(rectangle::is_rectangle(g, r1, r2, c1, c2));
        lemma_extra_found(g, cs, n, j, x, a, b, d, y);
        rectangle::lemma_extra_step(cs);
        let extra = rectangle::extra_step(cs);
        grid::lemma_sweep_changes(g, 4, extra);
        assert(extra(g, n) != g);
        assert(step(g, k) != g);
    }
    assert forall|j: int, x: u8| 0 <= j < 81 && #[trigger] grid::struck(g, end, j, x) implies grid::caused(
        g,
        end,
        rectangle_out(),
        j,
        x,
    ) by {
        assert forall|h: Grid, k: int| 0 <= k < 6561 && grid::wf(h) && grid::struck(
            h,
            #[trigger] step(h, k),
            j,
            x,
        ) implies grid::caused(h, step(h, k), rectangle_out(), j, x) by {
            let (r1, r2, c1, c2) = (k / 729, k / 81 % 9, k / 9 % 9, k % 9);
            let cs = rectangle::corners(r1, r2, c1, c2);
            let extra = rectangle::extra_step(cs);
            rectangle::lemma_extra_step(cs);
            assert forall|f: Grid, n: int| 0 <= n < 4 && grid::wf(f) && grid::struck(
                f,
                #[trigger] extra(f, n),
                j,
                x,
            ) implies grid::caused(f, extra(f, n), rectangle_out(), j, x) by {
                lemma_extra_strikes(f, r1, r2, c1, c2, n, j, x);
                technique_laws::lemma_at_once(f, extra(f, n), rectangle_out(), j, x);
            }
            grid::lemma_sweep_caused(h, 4, extra, rectangle_out(), j, x);
        }
        grid::lemma_sweep_caused(g, 6561, step, rectangle_out(), j, x);
    }
}

/// What a unique rectangle ruled out at the start does not stay, where its other corners
/// can become the same two digits at the end and its fourth corner something else.
pub proof fn law_unique_rectangles_are_complete(
    g: Grid,
    j: int,
    x: u8,
    a: int,
    b: int,
    d: int,
    y: u8,
    z: u8,
)
    requires
        grid::wf(g),
        is_deadly(g, j, x, a, b, d, y),
        wing_patterns::has_two(rectangle::unique_rectangles(g), a, x, y),
        wing_patterns::has_two(rectangle::unique_rectangles(g), b, x, y),
        wing_patterns::has_two(rectangle::unique_rectangles(g), d, x, y),
        z != x,
        z != y,
        technique_laws::spot(rectangle::unique_rectangles(g), j, z),
    ensures
        !(rectangle::unique_rectangles(g).cands[j].contains(x)
            && rectangle::unique_rectangles(g).cands[j].contains(y)),
{
    let step = rectangle::rectangle_step();
    let end = rectangle::unique_rectangles(g);
    rectangle::lemma_rectangle_step();
    let (k, n) = lemma_rectangle_of(j, a, b, d);
    let (r1, r2, c1, c2) = (k / 729, k / 81 % 9, k / 9 % 9, k % 9);
    let cs = rectangle::corners(r1, r2, c1, c2);
    let extra = rectangle::extra_step(cs);
    rectangle::lemma_extra_step(cs);
    if end.cands[j].contains(x) && end.cands[j].contains(y) {
        let h1 = grid::lemma_sweep_at(g, 6561, step, k);
        assert(h1.cands[j].contains(x));
        wing_patterns::lemma_two_between(g, h1, end, a, x, y);
        wing_patterns::lemma_two_between(g, h1, end, b, x, y);
        wing_patterns::lemma_two_between(g, h1, end, d, x, y);
        assert forall|m: int| #![trigger cs[m]] 0 <= m < 4 implies h1.cells[cs[m]] == 0 by {
            assert(m != n ==> cs[m] == a || cs[m] == b || cs[m] == d);
        }
        assert(rectangle::is_rectangle(h1, r1, r2, c1, c2));
        assert(step(h1, k) == grid::sweep(h1, 4, extra));
        let h2 = grid::lemma_sweep_at(h1, 4, extra, n);
        grid::lemma_chain(g, h1, h2);
        grid::lemma_chain(h2, step(h1, k), end);
        wing_patterns::lemma_two_between(g, h2, end, a, x, y);
        wing_patterns::lemma_two_between(g, h2, end, b, x, y);
        wing_patterns::lemma_two_between(g, h2, end, d, x, y);
        assert(h2.cands[j].contains(x) && h2.cands[j].contains(y) && h2.cands[j].contains(z));
        assert(technique_laws::spot(h2, j, x) && technique_laws::spot(h2, j, y));
        assert(technique_laws::spot(h2, j, z));
        assert(is_deadly(h2, j, x, a, b, d, y));
        lemma_extra_found(h2, cs, n, j, x, a, b, d, y);
        assert(!step(h1, k).cands[j].contains(x));
    }
}

} // verus!
