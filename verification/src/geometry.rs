//! Rows, columns, boxes, units and peers of the 81 cells.
//!
//! Cells are numbered row by row from 0 to 80. The 27 units are numbered: rows
//! 0 to 8, then columns 9 to 17, then boxes 18 to 26.

use crate::seqs;
use vstd::prelude::*;

verus! {

pub open spec fn row(i: int) -> int {
    i / 9
}

pub open spec fn col(i: int) -> int {
    i % 9
}

pub open spec fn box_no(i: int) -> int {
    (row(i) / 3) * 3 + col(i) / 3
}

/// Two different cells that share a row, a column or a box.
pub open spec fn peer(a: int, b: int) -> bool {
    a != b && (row(a) == row(b) || col(a) == col(b) || box_no(a) == box_no(b))
}

/// Cell `i` lies in unit `u`.
pub open spec fn in_unit(u: int, i: int) -> bool {
    if u < 9 {
        row(i) == u
    } else if u < 18 {
        col(i) == u - 9
    } else {
        box_no(i) == u - 18
    }
}

/// Two different cells of the same row, the same column or the same three by three
/// block.
pub open spec fn shares(a: int, b: int) -> bool {
    a != b && (a / 9 == b / 9 || a % 9 == b % 9 || (a / 27 == b / 27 && a % 9 / 3 == b % 9 / 3))
}

/// The box of a cell, by its band and its stack.
proof fn lemma_block(a: int)
    requires
        0 <= a < 81,
    ensures
        row(a) / 3 == a / 27,
        0 <= a / 27 < 3,
        0 <= col(a) / 3 < 3,
        box_no(a) == a / 27 * 3 + a % 9 / 3,
{
}

/// Peers are the cells that share a row, a column or a box, both ways round.
pub proof fn law_peers_share(a: int, b: int)
    requires
        0 <= a < 81,
        0 <= b < 81,
    ensures
        peer(a, b) <==> shares(a, b),
        peer(a, b) <==> peer(b, a),
{
    lemma_block(a);
    lemma_block(b);
    let (x, y, u, v) = (a / 27, a % 9 / 3, b / 27, b % 9 / 3);
    assert(box_no(a) == box_no(b) <==> x == u && y == v);
}

/// A unit is a row, a column or a box: the cells with the same row number, column
/// number or block, and there are nine of each.
pub proof fn law_units_cover(a: int, u: int)
    requires
        0 <= a < 81,
        0 <= u < 27,
    ensures
        u < 9 ==> (in_unit(u, a) <==> a / 9 == u),
        9 <= u < 18 ==> (in_unit(u, a) <==> a % 9 == u - 9),
        18 <= u ==> (in_unit(u, a) <==> a / 27 == (u - 18) / 3 && a % 9 / 3 == (u - 18) % 3),
        in_unit(u, a) <==> unit(u).contains(a as usize),
        unit(u).len() == 9,
{
    lemma_unit(u);
    lemma_block(a);
    if unit(u).contains(a as usize) {
        let k = unit(u).index_of(a as usize);
        assert(unit(u)[k] == a);
    }
}

/// The cells of a unit come in reading order.
pub proof fn law_units_in_order(u: int, j: int, k: int)
    requires
        0 <= u < 27,
        0 <= j < k < 9,
    ensures
        unit(u)[j] < unit(u)[k] < 81,
{
    if u >= 18 {
        let (br, bc) = ((u - 18) / 3, (u - 18) % 3);
        assert(0 <= br < 3 && 0 <= bc < 3);
        assert((br * 3 + j / 3) * 9 + (bc * 3 + j % 3) < (br * 3 + k / 3) * 9 + (bc * 3 + k % 3)
            < 81);
    }
}

pub open spec fn row_cells(r: int) -> Seq<usize> {
    Seq::new(9, |k: int| (r * 9 + k) as usize)
}

pub open spec fn col_cells(c: int) -> Seq<usize> {
    Seq::new(9, |k: int| (k * 9 + c) as usize)
}

pub open spec fn box_cells(b: int) -> Seq<usize> {
    Seq::new(9, |k: int| (((b / 3) * 3 + k / 3) * 9 + ((b % 3) * 3 + k % 3)) as usize)
}

/// The nine cells of unit `u`, in order.
pub open spec fn unit(u: int) -> Seq<usize> {
    if u < 9 {
        row_cells(u)
    } else if u < 18 {
        col_cells(u - 9)
    } else {
        box_cells(u - 18)
    }
}

/// The peers of cell `i`: along its row, then along its column, then what is
/// left of its box.
pub open spec fn peer_list(i: int) -> Seq<usize> {
    row_cells(row(i)).filter(other_than(i)) + col_cells(col(i)).filter(other_than(i)) + box_cells(
        box_no(i),
    ).filter(off_lines_of(i))
}

/// The cells other than `i`.
pub open spec fn other_than(i: int) -> spec_fn(usize) -> bool {
    |p: usize| p != i
}

/// The cells on neither the row nor the column of `i`.
pub open spec fn off_lines_of(i: int) -> spec_fn(usize) -> bool {
    |p: usize| row(p as int) != row(i) && col(p as int) != col(i)
}

/// The box number of a cell of a box, and its place in the box.
proof fn lemma_box_place(b: int, k: int)
    requires
        0 <= b < 9,
        0 <= k < 9,
    ensures
        ({
            let i = ((b / 3) * 3 + k / 3) * 9 + ((b % 3) * 3 + k % 3);
            &&& 0 <= i < 81
            &&& box_no(i) == b
            &&& row(i) == (b / 3) * 3 + k / 3
            &&& col(i) == (b % 3) * 3 + k % 3
        }),
{
}

/// The cells of a unit are the nine different cells that lie in it.
pub proof fn lemma_unit(u: int)
    requires
        0 <= u < 27,
    ensures
        unit(u).len() == 9,
        unit(u).no_duplicates(),
        forall|k: int| 0 <= k < 9 ==> unit(u)[k] < 81 && in_unit(u, #[trigger] unit(u)[k] as int),
        forall|i: usize| i < 81 && in_unit(u, i as int) ==> #[trigger] unit(u).contains(i),
{
    let s = unit(u);
    if u < 18 {
        assert forall|i: usize| i < 81 && in_unit(u, i as int) implies #[trigger] s.contains(i) by {
            if u < 9 {
                assert(s[i as int % 9] == i);
            } else {
                assert(s[i as int / 9] == i);
            }
        }
    } else {
        let b = u - 18;
        assert forall|k: int| 0 <= k < 9 implies s[k] < 81 && in_unit(u, #[trigger] s[k] as int)
            && s[k] as int == ((b / 3) * 3 + k / 3) * 9 + ((b % 3) * 3 + k % 3) by {
            lemma_box_place(b, k);
        }
        assert forall|j: int, k: int| 0 <= j < k < 9 implies s[j] != s[k] by {
            lemma_box_place(b, j);
            lemma_box_place(b, k);
        }
        assert forall|i: usize| i < 81 && in_unit(u, i as int) implies #[trigger] s.contains(i) by {
            let k = (row(i as int) % 3) * 3 + col(i as int) % 3;
            lemma_box_place(b, k);
            assert(s[k] == i);
        }
    }
}

/// Different cells of one unit are peers.
pub proof fn lemma_unit_peers(u: int, i: int, j: int)
    requires
        0 <= u < 27,
        in_unit(u, i),
        in_unit(u, j),
        i != j,
    ensures
        peer(i, j),
        peer(j, i),
{
}

/// The cell in the row of `i` that stands in column `k`.
pub open spec fn row_mate(i: int, k: int) -> int {
    row(i) * 9 + k
}

/// The cell in the column of `i` that stands in row `k`.
pub open spec fn col_mate(i: int, k: int) -> int {
    k * 9 + col(i)
}

/// Cell number `k` of the box of `i`.
pub open spec fn box_mate(i: int, k: int) -> int {
    ((row(i) / 3) * 3 + k / 3) * 9 + ((col(i) / 3) * 3 + k % 3)
}

/// The mates of a cell are the cell itself or peers of it.
pub proof fn lemma_mates(i: int, k: int)
    requires
        0 <= i < 81,
        0 <= k < 9,
    ensures
        0 <= row_mate(i, k) < 81,
        0 <= col_mate(i, k) < 81,
        0 <= box_mate(i, k) < 81,
        row_mate(i, k) == i <==> k == col(i),
        col_mate(i, k) == i <==> k == row(i),
        box_mate(i, k) == i <==> (row(i) / 3) * 3 + k / 3 == row(i) && (col(i) / 3) * 3 + k % 3
            == col(i),
        k != col(i) ==> peer(i, row_mate(i, k)),
        k != row(i) ==> peer(i, col_mate(i, k)),
        box_mate(i, k) != i ==> peer(i, box_mate(i, k)),
{
    let m = box_mate(i, k);
    let (r, c) = ((row(i) / 3) * 3 + k / 3, (col(i) / 3) * 3 + k % 3);
    assert(m == r * 9 + c && 0 <= c < 9);
    assert(row(m) == r && col(m) == c);
    assert(r / 3 == row(i) / 3 && c / 3 == col(i) / 3);
}

/// Every peer of a cell is one of its mates.
pub proof fn lemma_mate_of(i: int, j: int)
    requires
        0 <= i < 81,
        0 <= j < 81,
        peer(i, j),
    ensures
        (exists|k: int| 0 <= k < 9 && #[trigger] row_mate(i, k) == j) || (exists|k: int|
            0 <= k < 9 && #[trigger] col_mate(i, k) == j) || (exists|k: int|
            0 <= k < 9 && #[trigger] box_mate(i, k) == j),
{
    if row(i) == row(j) {
        assert(row_mate(i, col(j)) == j);
    } else if col(i) == col(j) {
        assert(col_mate(i, row(j)) == j);
    } else {
        assert(row(i) / 3 == row(j) / 3 && col(i) / 3 == col(j) / 3);
        let k = (row(j) % 3) * 3 + col(j) % 3;
        assert(k / 3 == row(j) % 3 && k % 3 == col(j) % 3);
        assert(box_mate(i, k) == j);
    }
}

/// Four cells of a box are in neither the row nor the column of cell `i` in it.
proof fn lemma_off_lines(i: int)
    requires
        0 <= i < 81,
    ensures
        box_cells(box_no(i)).filter(off_lines_of(i)).len() == 4,
{
    let b = box_no(i);
    let s = box_cells(b);
    let pred = off_lines_of(i);
    let (r, c) = (row(i) % 3, col(i) % 3);
    assert forall|k: int| 0 <= k < 9 implies (pred(#[trigger] s[k]) <==> k / 3 != r && k % 3 != c) by {
        lemma_box_place(b, k);
    }
    seqs::lemma_filter_ends(s, pred);
    seqs::lemma_filter_step(s, 0, pred);
    seqs::lemma_filter_step(s, 1, pred);
    seqs::lemma_filter_step(s, 2, pred);
    seqs::lemma_filter_step(s, 3, pred);
    seqs::lemma_filter_step(s, 4, pred);
    seqs::lemma_filter_step(s, 5, pred);
    seqs::lemma_filter_step(s, 6, pred);
    seqs::lemma_filter_step(s, 7, pred);
    seqs::lemma_filter_step(s, 8, pred);
}

/// Eight cells of a row or a column are not cell `i` of it.
proof fn lemma_others(i: int, u: int)
    requires
        0 <= i < 81,
        0 <= u < 27,
        in_unit(u, i),
    ensures
        unit(u).filter(other_than(i)).len() == 8,
{
    lemma_unit(u);
    let s = unit(u);
    assert(s.contains(i as usize));
    let k = s.index_of(i as usize);
    assert(s[k] == i);
    assert forall|j: int| 0 <= j < s.len() implies (other_than(i)(#[trigger] s[j]) <==> j != k) by {}
    seqs::lemma_filter_but_one(s, k, other_than(i), 9);
    seqs::lemma_filter_ends(s, other_than(i));
}

/// The list of peers holds each of the twenty peers once, and nothing else.
pub proof fn law_peer_list(i: int)
    requires
        0 <= i < 81,
    ensures
        peer_list(i).len() == 20,
        peer_list(i).no_duplicates(),
        forall|p: usize| #[trigger] peer_list(i).contains(p) <==> p < 81 && peer(i, p as int),
{
    let (ur, uc, ub) = (row(i), 9 + col(i), 18 + box_no(i));
    lemma_unit(ur);
    lemma_unit(uc);
    lemma_unit(ub);
    seqs::lemma_filter_members(unit(ur), other_than(i));
    seqs::lemma_filter_members(unit(uc), other_than(i));
    seqs::lemma_filter_members(unit(ub), off_lines_of(i));
    let a = unit(ur).filter(other_than(i));
    let b = unit(uc).filter(other_than(i));
    let c = unit(ub).filter(off_lines_of(i));
    let s = peer_list(i);
    assert(s == a + b + c);
    lemma_others(i, ur);
    lemma_others(i, uc);
    lemma_off_lines(i);
    assert forall|p: usize| #[trigger] s.contains(p) <==> a.contains(p) || b.contains(p)
        || c.contains(p) by {
        if a.contains(p) {
            assert(s[a.index_of(p)] == p);
        }
        if b.contains(p) {
            assert(s[a.len() + b.index_of(p)] == p);
        }
        if c.contains(p) {
            assert(s[a.len() + b.len() + c.index_of(p)] == p);
        }
        if s.contains(p) {
            let k = s.index_of(p);
            if k < a.len() {
                assert(a[k] == p);
            } else if k < a.len() + b.len() {
                assert(b[k - a.len()] == p);
            } else {
                assert(c[k - a.len() - b.len()] == p);
            }
        }
    }
    assert forall|u: int, p: usize| #[trigger] unit(u).contains(p) && (u == ur || u == uc || u
        == ub) implies p < 81 && in_unit(u, p as int) by {
        let k = unit(u).index_of(p);
        assert(unit(u)[k] == p);
    }
    assert forall|x: int, y: int| 0 <= x < y < s.len() implies s[x] != s[y] by {
        let n = a.len() as int;
        let m = n + b.len();
        if x < n {
            assert(a.contains(a[x]));
        } else if x < m {
            assert(b.contains(b[x - n]));
        } else {
            assert(c.contains(c[x - m]));
        }
        if y < n {
            assert(a.contains(a[y]));
        } else if y < m {
            assert(b.contains(b[y - n]));
        } else {
            assert(c.contains(c[y - m]));
        }
    }
}

/// The cells of row `r`.
pub fn cells_in_row(r: usize) -> (cells: Vec<usize>)
    requires
        r * 9 + 8 <= usize::MAX,
    ensures
        cells@ == row_cells(r as int),
{
    let mut cells: Vec<usize> = Vec::new();
    let mut k: usize = 0;
    while k < 9
        invariant
            k <= 9,
            r * 9 + 8 <= usize::MAX,
            cells@ == row_cells(r as int).take(k as int),
        decreases 9 - k,
    {
        cells.push(r * 9 + k);
        k = k + 1;
        assert(cells@ =~= row_cells(r as int).take(k as int));
    }
    cells
}

/// The cells of column `c`.
pub fn cells_in_col(c: usize) -> (cells: Vec<usize>)
    requires
        c + 72 <= usize::MAX,
    ensures
        cells@ == col_cells(c as int),
{
    let mut cells: Vec<usize> = Vec::new();
    let mut k: usize = 0;
    while k < 9
        invariant
            k <= 9,
            c + 72 <= usize::MAX,
            cells@ == col_cells(c as int).take(k as int),
        decreases 9 - k,
    {
        cells.push(k * 9 + c);
        k = k + 1;
        assert(cells@ =~= col_cells(c as int).take(k as int));
    }
    cells
}

/// The cells of box `b`.
pub fn cells_in_box(b: usize) -> (cells: Vec<usize>)
    requires
        ((b / 3) * 3 + 2) * 9 + (b % 3) * 3 + 2 <= usize::MAX,
    ensures
        cells@ == box_cells(b as int),
{
    let mut cells: Vec<usize> = Vec::new();
    let br: usize = (b / 3) * 3;
    let bc: usize = (b % 3) * 3;
    let mut k: usize = 0;
    while k < 9
        invariant
            k <= 9,
            br == (b as int / 3) * 3,
            bc == (b as int % 3) * 3,
            (br + 2) * 9 + bc + 2 <= usize::MAX,
            cells@ == box_cells(b as int).take(k as int),
        decreases 9 - k,
    {
        cells.push((br + k / 3) * 9 + (bc + k % 3));
        k = k + 1;
        assert(cells@ =~= box_cells(b as int).take(k as int));
    }
    cells
}

/// The number of the box that holds cell `idx`.
pub fn box_of(idx: usize) -> (b: usize)
    ensures
        b == box_no(idx as int),
{
    let r: usize = idx / 9;
    let c: usize = idx % 9;
    (r / 3) * 3 + c / 3
}

/// The 27 units: nine rows, nine columns, nine boxes.
pub fn all_units() -> (units: Vec<Vec<usize>>)
    ensures
        units@.len() == 27,
        forall|u: int| 0 <= u < 27 ==> #[trigger] units@[u]@ == unit(u),
{
    let mut units: Vec<Vec<usize>> = Vec::new();
    let mut u: usize = 0;
    while u < 27
        invariant
            u <= 27,
            units@.len() == u,
            forall|v: int| 0 <= v < u ==> #[trigger] units@[v]@ == unit(v),
        decreases 27 - u,
    {
        let cells = if u < 9 {
            cells_in_row(u)
        } else if u < 18 {
            cells_in_col(u - 9)
        } else {
            cells_in_box(u - 18)
        };
        units.push(cells);
        u = u + 1;
    }
    units
}

/// Whether two cells are different and share a row, a column or a box.
pub fn is_peer(a: usize, b: usize) -> (yes: bool)
    ensures
        yes == peer(a as int, b as int),
{
    if a == b {
        return false;
    }
    a / 9 == b / 9 || a % 9 == b % 9 || box_of(a) == box_of(b)
}

/// Whether two of the listed cells are peers.
pub fn has_peer_pair(nodes: &[usize]) -> (yes: bool)
    ensures
        yes == exists|i: int, j: int|
            0 <= i < j < nodes@.len() && peer(nodes@[i] as int, nodes@[j] as int),
{
    let mut i: usize = 0;
    while i < nodes.len()
        invariant
            i <= nodes@.len(),
            forall|a: int, b: int|
                0 <= a < i && a < b < nodes@.len() ==> !peer(nodes@[a] as int, nodes@[b] as int),
        decreases nodes@.len() - i,
    {
        let mut j: usize = i + 1;
        while j < nodes.len()
            invariant
                i < j <= nodes@.len(),
                forall|b: int| i < b < j ==> !peer(nodes@[i as int] as int, nodes@[b] as int),
            decreases nodes@.len() - j,
        {
            if is_peer(nodes[i], nodes[j]) {
                return true;
            }
            j = j + 1;
        }
        i = i + 1;
    }
    false
}

/// The peers of `idx`, each once: 8 in its row, 8 more in its column, 4 more in
/// its box.
pub fn peers_of(idx: usize) -> (peers: Vec<usize>)
    requires
        idx < 81,
    ensures
        peers@ == peer_list(idx as int),
{
    let row_list = cells_in_row(idx / 9);
    let col_list = cells_in_col(idx % 9);
    let box_list = cells_in_box(box_of(idx));
    let ghost i = idx as int;
    let ghost off = other_than(i);
    let ghost apart = off_lines_of(i);
    let mut peers: Vec<usize> = Vec::new();
    let mut k: usize = 0;
    proof {
        reveal(Seq::filter);
    }
    while k < 9
        invariant
            k <= 9,
            i == idx,
            off == other_than(i),
            row_list@ == row_cells(row(i)),
            peers@ == row_list@.take(k as int).filter(off),
        decreases 9 - k,
    {
        proof {
            reveal(Seq::filter);
            assert(row_list@.take(k + 1).drop_last() =~= row_list@.take(k as int));
        }
        let p = row_list[k];
        if p != idx {
            peers.push(p);
        }
        k = k + 1;
    }
    let ghost along_row = peers@;
    assert(row_list@.take(9) =~= row_list@);
    k = 0;
    proof {
        assert(col_list@.take(0).filter(off) =~= Seq::<usize>::empty()) by {
            reveal(Seq::filter);
        }
    }
    while k < 9
        invariant
            k <= 9,
            i == idx,
            off == other_than(i),
            col_list@ == col_cells(col(i)),
            peers@ == along_row + col_list@.take(k as int).filter(off),
        decreases 9 - k,
    {
        proof {
            reveal(Seq::filter);
            assert(col_list@.take(k + 1).drop_last() =~= col_list@.take(k as int));
        }
        let p = col_list[k];
        if p != idx {
            peers.push(p);
        }
        k = k + 1;
        assert(peers@ =~= along_row + col_list@.take(k as int).filter(off));
    }
    let ghost along_both = peers@;
    assert(col_list@.take(9) =~= col_list@);
    k = 0;
    proof {
        assert(box_list@.take(0).filter(apart) =~= Seq::<usize>::empty()) by {
            reveal(Seq::filter);
        }
    }
    while k < 9
        invariant
            k <= 9,
            i == idx,
            apart == off_lines_of(i),
            box_list@ == box_cells(box_no(i)),
            peers@ == along_both + box_list@.take(k as int).filter(apart),
        decreases 9 - k,
    {
        proof {
            reveal(Seq::filter);
            assert(box_list@.take(k + 1).drop_last() =~= box_list@.take(k as int));
        }
        let p = box_list[k];
        if p / 9 != idx / 9 && p % 9 != idx % 9 {
            peers.push(p);
        }
        k = k + 1;
        assert(peers@ =~= along_both + box_list@.take(k as int).filter(apart));
    }
    assert(box_list@.take(9) =~= box_list@);
    peers
}

/// Where a peer of `i` comes in the list of its peers: first those of its row, by column;
/// then those of its column, by row; then the others, in reading order.
pub open spec fn list_place(i: int, p: int) -> int {
    if row(p) == row(i) {
        col(p)
    } else if col(p) == col(i) {
        9 + row(p)
    } else {
        18 + p
    }
}

/// The peers of a cell come in that order.
pub proof fn law_peer_list_in_order(i: int, j: int, k: int)
    requires
        0 <= i < 81,
        0 <= j < k < peer_list(i).len(),
    ensures
        list_place(i, peer_list(i)[j] as int) < list_place(i, peer_list(i)[k] as int),
{
    let (r, c, b) = (
        row_cells(row(i)).filter(other_than(i)),
        col_cells(col(i)).filter(other_than(i)),
        box_cells(box_no(i)).filter(off_lines_of(i)),
    );
    lemma_unit_part(row(i), other_than(i));
    lemma_unit_part(9 + col(i), other_than(i));
    lemma_unit_part(18 + box_no(i), off_lines_of(i));
    assert(unit(row(i)) == row_cells(row(i)));
    assert(unit(9 + col(i)) == col_cells(col(i)));
    assert(unit(18 + box_no(i)) == box_cells(box_no(i)));
    assert forall|n: int| 0 <= n < r.len() implies list_place(i, #[trigger] r[n] as int) == col(
        r[n] as int,
    ) && list_place(i, r[n] as int) < 9 by {
        assert(in_unit(row(i), r[n] as int));
    }
    assert forall|n: int| 0 <= n < c.len() implies list_place(i, #[trigger] c[n] as int) == 9 + row(
        c[n] as int,
    ) && 9 <= list_place(i, c[n] as int) < 18 by {
        assert(in_unit(9 + col(i), c[n] as int));
        assert(other_than(i)(c[n]));
    }
    assert forall|n: int| 0 <= n < b.len() implies list_place(i, #[trigger] b[n] as int) == 18
        + b[n] by {
        assert(off_lines_of(i)(b[n]));
    }
    let all = peer_list(i);
    assert forall|n: int| 0 <= n < all.len() implies #[trigger] all[n] == if n < r.len() {
        r[n]
    } else if n < r.len() + c.len() {
        c[n - r.len()]
    } else {
        b[n - r.len() - c.len()]
    } by {}
    if k < r.len() {
        assert(all[j] == r[j] && all[k] == r[k]);
        assert(r[j] < r[k]);
        assert(in_unit(row(i), r[j] as int) && in_unit(row(i), r[k] as int));
    } else if j >= r.len() && k < r.len() + c.len() {
        let (m, n) = (j - r.len(), k - r.len());
        assert(all[j] == c[m] && all[k] == c[n]);
        assert(c[m] < c[n]);
        assert(in_unit(9 + col(i), c[m] as int) && in_unit(9 + col(i), c[n] as int));
    } else if j >= r.len() + c.len() {
        let (m, n) = (j - r.len() - c.len(), k - r.len() - c.len());
        assert(all[j] == b[m] && all[k] == b[n]);
        assert(b[m] < b[n]);
    }
}

/// What is picked from a unit lies in it and comes in reading order.
pub proof fn lemma_unit_part(u: int, pred: spec_fn(usize) -> bool)
    requires
        0 <= u < 27,
    ensures
        forall|n: int|
            0 <= n < unit(u).filter(pred).len() ==> #[trigger] unit(u).filter(pred)[n] < 81
                && in_unit(u, unit(u).filter(pred)[n] as int) && pred(unit(u).filter(pred)[n]),
        forall|m: int, n: int|
            0 <= m < n < unit(u).filter(pred).len() ==> #[trigger] unit(u).filter(pred)[m]
                < #[trigger] unit(u).filter(pred)[n],
{
    assert forall|m: int, n: int| 0 <= m < n < unit(u).len() implies #[trigger] unit(u)[m]
        < #[trigger] unit(u)[n] by {
        law_units_in_order(u, m, n);
    }
    seqs::lemma_filter_sorted(unit(u), pred);
    seqs::lemma_filter_members(unit(u), pred);
    lemma_unit(u);
    let s = unit(u).filter(pred);
    assert forall|n: int| 0 <= n < s.len() implies #[trigger] s[n] < 81 && in_unit(u, s[n] as int)
        && pred(s[n]) by {
        assert(s.contains(s[n]));
        let k = unit(u).index_of(s[n]);
        assert(unit(u)[k] == s[n]);
    }
}

} // verus!
