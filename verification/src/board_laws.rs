//! What the rules of the game mean, cell by cell.

use crate::board;
use crate::geometry;
use crate::single_laws;
use crate::spots;
use vstd::prelude::*;

verus! {

/// A digit is free for a cell exactly where no other cell of its row, its column or its
/// box holds it.
pub proof fn law_free_for(b: Seq<u8>, i: int, v: u8)
    requires
        0 <= i < 81,
    ensures
        board::free_for(b, i, v) <==> !single_laws::is_seen(b, i, v),
{
    if single_laws::is_seen(b, i, v) {
        let p = choose|p: int| 0 <= p < 81 && #[trigger] geometry::shares(p, i) && b[p] == v;
        geometry::law_peers_share(p, i);
        assert(geometry::peer(i, p));
    } else {
        assert forall|j: int| 0 <= j < 81 && #[trigger] geometry::peer(i, j) implies b[j] != v by {
            geometry::law_peers_share(j, i);
            geometry::law_peers_share(i, j);
            assert(geometry::shares(j, i));
        }
    }
}

/// A completion keeps the givens and fills the other cells with digits from 1 to 9, none
/// of which is seen twice.
pub proof fn law_completes(b: Seq<u8>, f: Seq<u8>)
    ensures
        board::completes(b, f) <==> f.len() == 81 && forall|i: int|
            #![trigger f[i]]
            0 <= i < 81 ==> if b[i] != 0 {
                f[i] == b[i]
            } else {
                1 <= f[i] <= 9 && !single_laws::is_seen(f, i, f[i])
            },
        board::completions(b).contains(f) <==> board::completes(b, f),
{
    assert forall|i: int| #![trigger f[i]] 0 <= i < 81 implies (board::free_for(f, i, f[i])
        <==> !single_laws::is_seen(f, i, f[i])) by {
        law_free_for(f, i, f[i]);
    }
}

/// A full grid is valid exactly where its cells hold digits from 1 to 9 and no two of the
/// same row, the same column or the same box hold the same. Then every row, column and
/// box has every digit.
pub proof fn law_valid_grid(f: Seq<u8>)
    ensures
        board::valid_grid(f) <==> f.len() == 81 && (forall|i: int|
            #![trigger f[i]]
            0 <= i < 81 ==> 1 <= f[i] <= 9) && forall|i: int, j: int|
            0 <= i < 81 && 0 <= j < 81 && #[trigger] geometry::shares(i, j) ==> f[i] != f[j],
        board::valid_grid(f) ==> forall|u: int, d: u8|
            0 <= u < 27 && 1 <= d <= 9 ==> #[trigger] is_in(f, u, d),
{
    assert forall|i: int, j: int| 0 <= i < 81 && 0 <= j < 81 implies (#[trigger] geometry::shares(
        i,
        j,
    ) <==> geometry::peer(i, j)) by {
        geometry::law_peers_share(i, j);
    }
    if board::valid_grid(f) {
        assert forall|u: int, d: u8| 0 <= u < 27 && 1 <= d <= 9 implies #[trigger] is_in(f, u, d) by {
            let i = spots::lemma_unit_has(f, u, d);
            assert(geometry::in_unit(u, i));
        }
    } else if f.len() == 81 && (forall|i: int| #![trigger f[i]] 0 <= i < 81 ==> 1 <= f[i] <= 9) {
        if forall|i: int, j: int|
            0 <= i < 81 && 0 <= j < 81 && #[trigger] geometry::shares(i, j) ==> f[i] != f[j] {
            assert forall|i: int, j: int|
                0 <= i < 81 && 0 <= j < 81 && #[trigger] geometry::peer(i, j) implies f[i] != f[j] by {
                assert(geometry::shares(i, j));
            }
        }
    }
}

/// Some cell of unit `u` holds `d`.
pub open spec fn is_in(f: Seq<u8>, u: int, d: u8) -> bool {
    exists|i: int| 0 <= i < 81 && #[trigger] geometry::in_unit(u, i) && f[i] == d
}

/// Two boards agree up to cell `k`.
pub open spec fn same_up_to(a: Seq<u8>, b: Seq<u8>, k: int) -> bool {
    forall|j: int| 0 <= j < k ==> a[j] == b[j]
}

proof fn lemma_first_difference(a: Seq<u8>, b: Seq<u8>, n: int) -> (k: int)
    requires
        0 <= n <= 81,
        !same_up_to(a, b, n),
    ensures
        0 <= k < n,
        a[k] != b[k],
        same_up_to(a, b, k),
    decreases n,
{
    if same_up_to(a, b, n - 1) {
        n - 1
    } else {
        lemma_first_difference(a, b, n - 1)
    }
}

/// Of two different boards just one comes first: the one with the smaller digit in the
/// first cell where they differ.
pub proof fn law_reading_order(a: Seq<u8>, b: Seq<u8>, k: int)
    requires
        a.len() == 81,
        b.len() == 81,
        0 <= k < 81,
        a[k] != b[k],
        same_up_to(a, b, k),
    ensures
        board::lex_less(a, b) <==> a[k] < b[k],
        board::lex_less(b, a) <==> b[k] < a[k],
        !board::lex_less(a, a),
{
    if a[k] < b[k] {
        assert(board::lex_less(a, b));
    } else {
        assert(board::lex_less(b, a));
    }
    assert forall|m: int| #![trigger a[m]]
        0 <= m < 81 && a[m] != b[m] && same_up_to(a, b, m) implies m == k by {}
}

/// Different boards differ in some first cell.
pub proof fn law_boards_differ_somewhere(a: Seq<u8>, b: Seq<u8>) -> (k: int)
    requires
        a.len() == 81,
        b.len() == 81,
        a != b,
    ensures
        0 <= k < 81,
        a[k] != b[k],
        same_up_to(a, b, k),
{
    if same_up_to(a, b, 81) {
        assert(a =~= b);
    }
    lemma_first_difference(a, b, 81)
}

/// The empty cells of a board.
pub open spec fn empty_cells(b: Seq<u8>) -> Set<int> {
    Set::new(|i: int| 0 <= i < b.len() && b[i] == 0)
}

/// The blanks of a board are its empty cells.
pub proof fn law_blanks(b: Seq<u8>)
    ensures
        empty_cells(b).finite(),
        board::blanks(b) == empty_cells(b).len(),
    decreases b.len(),
{
    if b.len() == 0 {
        assert(empty_cells(b) =~= Set::<int>::empty());
    } else {
        let c = b.drop_last();
        law_blanks(c);
        if b.last() == 0 {
            assert(empty_cells(b) =~= empty_cells(c).insert(b.len() - 1));
        } else {
            assert(empty_cells(b) =~= empty_cells(c));
        }
    }
}

} // verus!
