//! The 9 by 9 board: placement rules, brute-force solving and counting of
//! solutions.

use crate::geometry;
use vstd::prelude::*;

verus! {

pub const ROWS: usize = 9;

pub const COLS: usize = 9;

pub const CELLS: usize = 81;

/// A board, row by row; 0 stands for an empty cell.
#[derive(Clone, Copy)]
pub struct Board {
    pub cells: [u8; CELLS],
}

impl View for Board {
    type V = Seq<u8>;

    open spec fn view(&self) -> Seq<u8> {
        self.cells@
    }
}

/// No peer of cell `i` holds `v`.
pub open spec fn free_for(b: Seq<u8>, i: int, v: u8) -> bool {
    forall|j: int| 0 <= j < 81 && #[trigger] geometry::peer(i, j) ==> b[j] != v
}

/// `f` fills the empty cells of `b` with digits from 1 to 9, each different from
/// all its peers, and leaves the other cells as they are.
pub open spec fn completes(b: Seq<u8>, f: Seq<u8>) -> bool {
    &&& f.len() == 81
    &&& forall|i: int| #![trigger f[i]] 0 <= i < 81 && b[i] != 0 ==> f[i] == b[i]
    &&& forall|i: int|
        #![trigger f[i]]
        0 <= i < 81 && b[i] == 0 ==> 1 <= f[i] <= 9 && free_for(f, i, f[i])
}

/// All the ways to complete `b`.
pub open spec fn completions(b: Seq<u8>) -> Set<Seq<u8>> {
    Set::new(|f: Seq<u8>| completes(b, f))
}

/// Reading cell by cell, `a` is smaller than `b` where they first differ.
pub open spec fn lex_less(a: Seq<u8>, b: Seq<u8>) -> bool {
    exists|k: int|
        #![trigger a[k]]
        0 <= k < 81 && a[k] < b[k] && forall|j: int| 0 <= j < k ==> a[j] == b[j]
}

/// The empty cells of `b` number this many.
pub open spec fn blanks(b: Seq<u8>) -> nat
    decreases b.len(),
{
    if b.len() == 0 {
        0
    } else {
        blanks(b.drop_last()) + if b.last() == 0 {
            1nat
        } else {
            0
        }
    }
}

/// A full grid: every cell holds a digit from 1 to 9 that none of its peers holds.
pub open spec fn valid_grid(f: Seq<u8>) -> bool {
    &&& f.len() == 81
    &&& forall|i: int| #![trigger f[i]] 0 <= i < 81 ==> 1 <= f[i] <= 9
    &&& forall|i: int, j: int|
        0 <= i < 81 && 0 <= j < 81 && #[trigger] geometry::peer(i, j) ==> f[i] != f[j]
}

pub proof fn lemma_blanks_update(b: Seq<u8>, i: int, v: u8)
    requires
        0 <= i < b.len(),
    ensures
        b[i] == 0 && v != 0 ==> blanks(b.update(i, v)) + 1 == blanks(b),
        b[i] != 0 && v == 0 ==> blanks(b.update(i, v)) == blanks(b) + 1,
        blanks(b) <= b.len(),
    decreases b.len(),
{
    let c = b.update(i, v);
    if i == b.len() - 1 {
        assert(c.drop_last() =~= b.drop_last());
        if b.len() > 1 {
            lemma_blanks_update(b.drop_last(), 0, v);
        }
    } else {
        assert(c.drop_last() =~= b.drop_last().update(i, v));
        lemma_blanks_update(b.drop_last(), i, v);
    }
}

/// The completions of `b` that put `n` in the empty cell `i` are those of `b`
/// with `n` written there, if that placement is free, and else there are none.
pub proof fn lemma_split(b: Seq<u8>, i: int, n: u8, f: Seq<u8>)
    requires
        b.len() == 81,
        0 <= i < 81,
        b[i] == 0,
        1 <= n <= 9,
    ensures
        (completes(b, f) && f[i] == n) <==> (free_for(b, i, n) && completes(b.update(i, n), f)),
{
    let c = b.update(i, n);
    if completes(b, f) && f[i] == n {
        assert forall|j: int| 0 <= j < 81 && #[trigger] geometry::peer(i, j) implies b[j] != n by {
            assert(f[j] != n);
        }
        assert(completes(c, f));
    }
    if free_for(b, i, n) && completes(c, f) {
        assert(f[i] == n);
        assert forall|j: int| 0 <= j < 81 && #[trigger] geometry::peer(i, j) implies f[j] != n by {
            if b[j] == 0 {
                assert(c[j] == 0);
                assert(free_for(f, j, f[j]));
                assert(geometry::peer(j, i));
            } else {
                assert(f[j] == b[j]);
            }
        }
        assert forall|k: int| #![trigger f[k]] 0 <= k < 81 && b[k] == 0 implies 1 <= f[k] <= 9
            && free_for(f, k, f[k]) by {
            if k != i {
                assert(c[k] == 0);
            }
        }
        assert forall|k: int| #![trigger f[k]] 0 <= k < 81 && b[k] != 0 implies f[k] == b[k] by {
            assert(c[k] == b[k]);
        }
    }
}

/// The completions of `b` with a digit below `n` in cell `i`.
pub open spec fn completions_below(b: Seq<u8>, i: int, n: int) -> Set<Seq<u8>> {
    Set::new(|f: Seq<u8>| completes(b, f) && f[i] < n)
}

proof fn lemma_below_step(b: Seq<u8>, i: int, n: u8)
    requires
        b.len() == 81,
        0 <= i < 81,
        b[i] == 0,
        1 <= n <= 9,
        completions_below(b, i, n as int).finite(),
        free_for(b, i, n) ==> completions(b.update(i, n)).finite(),
    ensures
        completions_below(b, i, n + 1).finite(),
        completions_below(b, i, n + 1).len() == completions_below(b, i, n as int).len() + if free_for(
            b,
            i,
            n,
        ) {
            completions(b.update(i, n)).len()
        } else {
            0
        },
{
    let lo = completions_below(b, i, n as int);
    let here = completions(b.update(i, n));
    assert forall|f: Seq<u8>| #[trigger] here.contains(f) && free_for(b, i, n) implies f[i] == n by {
        lemma_split(b, i, n, f);
    }
    assert forall|f: Seq<u8>| completions_below(b, i, n + 1).contains(f) == (lo.contains(f) || (
    free_for(b, i, n) && here.contains(f))) by {
        lemma_split(b, i, n, f);
    }
    if free_for(b, i, n) {
        assert(completions_below(b, i, n + 1) =~= lo + here);
        assert(lo.disjoint(here));
        vstd::set_lib::lemma_set_disjoint_lens(lo, here);
    } else {
        assert(completions_below(b, i, n + 1) =~= lo);
    }
}

proof fn lemma_below_ends(b: Seq<u8>, i: int)
    requires
        0 <= i < 81,
        b[i] == 0,
    ensures
        completions_below(b, i, 1) == Set::<Seq<u8>>::empty(),
        completions_below(b, i, 10) == completions(b),
{
    assert(completions_below(b, i, 1) =~= Set::<Seq<u8>>::empty());
    assert(completions_below(b, i, 10) =~= completions(b));
}

proof fn lemma_full(b: Seq<u8>)
    requires
        b.len() == 81,
        forall|i: int| 0 <= i < 81 ==> b[i] != 0,
    ensures
        completions(b) == set![b],
        completions(b).finite(),
        completions(b).len() == 1,
{
    assert forall|f: Seq<u8>| completes(b, f) == (f == b) by {
        if completes(b, f) {
            assert(f =~= b);
        }
    }
    assert(completions(b) =~= set![b]);
}

/// A board has finitely many completions.
pub proof fn lemma_completions_finite(b: Seq<u8>)
    requires
        b.len() == 81,
    ensures
        completions(b).finite(),
    decreases blanks(b),
{
    if forall|i: int| 0 <= i < 81 ==> b[i] != 0 {
        lemma_full(b);
    } else {
        let i = choose|i: int| 0 <= i < 81 && b[i] == 0;
        lemma_below_ends(b, i);
        lemma_below_finite(b, i, 10);
    }
}

proof fn lemma_below_finite(b: Seq<u8>, i: int, n: int)
    requires
        b.len() == 81,
        0 <= i < 81,
        b[i] == 0,
        1 <= n <= 10,
    ensures
        completions_below(b, i, n).finite(),
    decreases blanks(b), n,
{
    if n == 1 {
        lemma_below_ends(b, i);
    } else {
        let m = (n - 1) as u8;
        lemma_below_finite(b, i, n - 1);
        lemma_blanks_update(b, i, m);
        lemma_completions_finite(b.update(i, m));
        lemma_below_step(b, i, m);
    }
}

/// A board has a completion just where counting finds one.
pub proof fn law_count_tells_solvable(b: Seq<u8>)
    requires
        b.len() == 81,
    ensures
        completions(b).len() == 0 <==> !exists|f: Seq<u8>| #[trigger] completes(b, f),
{
    lemma_completions_finite(b);
    if exists|f: Seq<u8>| #[trigger] completes(b, f) {
        let f = choose|f: Seq<u8>| #[trigger] completes(b, f);
        assert(completions(b).contains(f));
        if completions(b).len() == 0 {
            assert(completions(b) =~= Set::<Seq<u8>>::empty());
        }
    } else {
        assert(completions(b) =~= Set::<Seq<u8>>::empty());
    }
}

impl Board {
    /// The empty board.
    pub fn new() -> (b: Self)
        ensures
            b@ == Seq::new(81, |i: int| 0u8),
    {
        let b = Board { cells: [0u8; CELLS] };
        assert(b@ =~= Seq::new(81, |i: int| 0u8));
        b
    }

    /// The cell in row `r` and column `c`.
    pub fn idx(r: usize, c: usize) -> (i: usize)
        requires
            r * 9 + c <= usize::MAX,
        ensures
            i == r * 9 + c,
    {
        r * 9 + c
    }

    /// The row and column of a cell.
    pub fn row_col(idx: usize) -> (rc: (usize, usize))
        ensures
            rc.0 == geometry::row(idx as int),
            rc.1 == geometry::col(idx as int),
    {
        (idx / 9, idx % 9)
    }

    /// Whether `num` occurs nowhere else in the row, column and box of `idx`.
    pub fn is_valid_placement(&self, idx: usize, num: u8) -> (ok: bool)
        requires
            idx < 81,
        ensures
            ok == free_for(self@, idx as int, num),
    {
        let (r, c) = Self::row_col(idx);
        let box_r: usize = (r / 3) * 3;
        let box_c: usize = (c / 3) * 3;
        let ghost at = idx as int;
        let mut i: usize = 0;
        while i < 9
            invariant
                i <= 9,
                at == idx,
                idx < 81,
                r == geometry::row(at),
                c == geometry::col(at),
                box_r == (r as int / 3) * 3,
                box_c == (c as int / 3) * 3,
                forall|k: int|
                    0 <= k < i ==> self.clear_at(at, #[trigger] geometry::row_mate(at, k), num),
                forall|k: int|
                    0 <= k < i ==> self.clear_at(at, #[trigger] geometry::col_mate(at, k), num),
                forall|k: int|
                    0 <= k < i ==> self.clear_at(at, #[trigger] geometry::box_mate(at, k), num),
            decreases 9 - i,
        {
            proof {
                geometry::lemma_mates(at, i as int);
            }
            if self.cells[Self::idx(r, i)] == num && i != c {
                assert(geometry::peer(at, geometry::row_mate(at, i as int)));
                return false;
            }
            if self.cells[Self::idx(i, c)] == num && i != r {
                assert(geometry::peer(at, geometry::col_mate(at, i as int)));
                return false;
            }
            let br: usize = box_r + i / 3;
            let bc: usize = box_c + i % 3;
            assert(br * 9 + bc == geometry::box_mate(at, i as int));
            if self.cells[Self::idx(br, bc)] == num && (br != r || bc != c) {
                assert(geometry::peer(at, geometry::box_mate(at, i as int)));
                return false;
            }
            i = i + 1;
        }
        assert forall|j: int| 0 <= j < 81 && #[trigger] geometry::peer(at, j) implies self@[j]
            != num by {
            geometry::lemma_mate_of(at, j);
            assert(self.clear_at(at, j, num));
        }
        true
    }

    spec fn clear_at(&self, at: int, j: int, num: u8) -> bool {
        j != at ==> self@[j] != num
    }

    /// Fills the empty cells by trying digits in increasing order, and reports
    /// whether a completion was found. The board is left with the first
    /// completion in reading order, or as it was where there is none.
    pub fn solve(&mut self) -> (solved: bool)
        ensures
            solved == exists|f: Seq<u8>| completes(old(self)@, f),
            solved ==> completes(old(self)@, final(self)@),
            solved ==> forall|f: Seq<u8>|
                #[trigger] completes(old(self)@, f) && f != final(self)@ ==> lex_less(
                    final(self)@,
                    f,
                ),
            !solved ==> *final(self) == *old(self),
        decreases blanks(old(self)@),
    {
        let ghost b = self@;
        let mut idx: usize = 0;
        while idx < CELLS
            invariant
                idx <= 81,
                self@ == b,
                b.len() == 81,
                b == old(self)@,
                *self == *old(self),
                forall|j: int| 0 <= j < idx ==> b[j] != 0,
            decreases 81 - idx,
        {
            if self.cells[idx] == 0 {
                let mut num: u8 = 1;
                while num <= 9
                    invariant
                        idx < 81,
                        1 <= num <= 10,
                        b == old(self)@,
                        b.len() == 81,
                        b[idx as int] == 0,
                        *self == *old(self),
                        forall|j: int| 0 <= j < idx ==> b[j] != 0,
                        forall|f: Seq<u8>| #[trigger]
                            completes(b, f) ==> f[idx as int] >= num,
                    decreases 10 - num,
                {
                    if self.is_valid_placement(idx, num) {
                        self.cells[idx] = num;
                        let ghost c = self@;
                        proof {
                            assert(c =~= b.update(idx as int, num));
                            lemma_blanks_update(b, idx as int, num);
                        }
                        if self.solve() {
                            proof {
                                lemma_split(b, idx as int, num, self@);
                                assert forall|f: Seq<u8>| #[trigger]
                                    completes(b, f) && f != self@ implies lex_less(self@, f) by {
                                    if f[idx as int] == num {
                                        lemma_split(b, idx as int, num, f);
                                    } else {
                                        assert(self@[idx as int] == num);
                                        assert forall|j: int| 0 <= j < idx implies self@[j]
                                            == f[j] by {
                                            assert(b[j] != 0);
                                        }
                                    }
                                }
                            }
                            return true;
                        }
                        self.cells[idx] = 0;
                        proof {
                            assert(self@ =~= b);
                            assert(self.cells =~= old(self).cells);
                            assert forall|f: Seq<u8>| #[trigger] completes(b, f) implies f[idx as int]
                                >= num + 1 by {
                                lemma_split(b, idx as int, num, f);
                            }
                        }
                    } else {
                        proof {
                            assert forall|f: Seq<u8>| #[trigger] completes(b, f) implies f[idx as int]
                                >= num + 1 by {
                                lemma_split(b, idx as int, num, f);
                            }
                        }
                    }
                    num = num + 1;
                }
                return false;
            }
            idx = idx + 1;
        }
        proof {
            lemma_full(b);
            assert(completions(b).contains(b));
            assert forall|f: Seq<u8>| #[trigger] completes(b, f) implies f == b by {
                assert(completions(b).contains(f));
            }
        }
        true
    }

    /// Adds the number of completions to `count`, but stops at 2: a count of 2
    /// means "more than one". The board is left as it was.
    pub fn count_solutions(&mut self, count: &mut usize)
        ensures
            *final(self) == *old(self),
            completions(old(self)@).finite(),
            *final(count) == if *old(count) >= 2 {
                *old(count) as int
            } else if *old(count) + completions(old(self)@).len() >= 2 {
                2
            } else {
                *old(count) + completions(old(self)@).len()
            },
        decreases blanks(old(self)@),
    {
        let ghost b = self@;
        proof {
            lemma_completions_finite(b);
        }
        if *count >= 2 {
            return ;
        }
        let mut idx: usize = 0;
        while idx < CELLS && self.cells[idx] != 0
            invariant
                idx <= 81,
                self@ == b,
                b.len() == 81,
                forall|j: int| 0 <= j < idx ==> b[j] != 0,
            decreases 81 - idx,
        {
            idx = idx + 1;
        }
        if idx == CELLS {
            proof {
                lemma_full(b);
            }
            *count = *count + 1;
            return ;
        }
        let mut num: u8 = 1;
        let ghost at = idx as int;
        let ghost start = *count;
        proof {
            lemma_below_ends(b, at);
        }
        while num <= 9
            invariant
                at == idx,
                idx < 81,
                1 <= num <= 10,
                b == old(self)@,
                b.len() == 81,
                b[at] == 0,
                *self == *old(self),
                start < 2,
                *count < 2,
                completions(b).finite(),
                completions_below(b, at, num as int).finite(),
                *count == start + completions_below(b, at, num as int).len(),
                start == *old(count),
            decreases 10 - num,
        {
            proof {
                let m = num;
                lemma_blanks_update(b, at, m);
                lemma_completions_finite(b.update(at, m));
                lemma_below_step(b, at, m);
                assert(completions_below(b, at, m + 1).subset_of(completions(b)));
                vstd::set_lib::lemma_len_subset(completions_below(b, at, m + 1), completions(b));
            }
            if self.is_valid_placement(idx, num) {
                self.cells[idx] = num;
                assert(self@ =~= b.update(at, num));
                self.count_solutions(count);
                self.cells[idx] = 0;
                assert(self@ =~= b);
                assert(self.cells =~= old(self).cells);
                if *count >= 2 {
                    return ;
                }
            }
            num = num + 1;
        }
        proof {
            lemma_below_ends(b, at);
        }
    }
}

} // verus!
